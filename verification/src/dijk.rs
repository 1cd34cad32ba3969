//! Dijkstra-style shortest-path search: a resumable single-step state
//! machine over a borrowed graph, with a min-priority frontier keyed by
//! cumulative distance.
//!
//! There is no separate discovered set: an id may sit in the frontier
//! several times. Only genuinely improving candidates are pushed, and a
//! popped entry whose id is already settled with a strictly smaller
//! distance is stale — it is absorbed by staying in the `Pop` state —
//! which avoids a decrease-key operation. Ties are broken toward the
//! entry pushed earliest (the lowest frontier index).

use vstd::prelude::*;
use crate::graph::{
    lemma_path_weight_prefix, lemma_wf_path_drop_last, path_weight, wf_path, DoesNotContainError,
    Graph,
};
use crate::ids::id_eq;
use crate::node::lemma_sorted_key_unique;
use crate::search::{
    chain_entry_ok, chain_ok, clone_entries, edge_views, ev, lemma_unsettled_mono,
    lemma_unsettled_strict, lemma_walk_round_trip, pv, qv, reconstruct_path, sentinel,
    simple_path, state_rank, unsettled_count, vcontains, vdist, vfind, vfrom, vidx, vunique,
    walk, State, Status, lemma_vidx_unique,
};

verus! {

/// `i` is the index the frontier pops: the first entry carrying the
/// minimal cumulative distance.
pub open spec fn is_first_min(q: Seq<(Seq<char>, Seq<char>, u64)>, i: int) -> bool {
    &&& 0 <= i < q.len()
    &&& forall|j: int| 0 <= j < q.len() ==> q[i].2 <= (#[trigger] q[j]).2
    &&& forall|j: int| 0 <= j < i ==> (#[trigger] q[j]).2 > q[i].2
}

/// The index `is_first_min` describes, when the frontier is non-empty.
pub open spec fn first_min_idx(q: Seq<(Seq<char>, Seq<char>, u64)>) -> int {
    choose|i: int| is_first_min(q, i)
}

/// At most one index is the first minimum.
pub proof fn lemma_first_min_unique(q: Seq<(Seq<char>, Seq<char>, u64)>, i: int, j: int)
    requires
        is_first_min(q, i),
        is_first_min(q, j),
    ensures
        i == j,
{
    if i < j {
        assert(q[i].2 > q[j].2);
        assert(q[i].2 <= q[j].2);
    }
    if j < i {
        assert(q[j].2 > q[i].2);
        assert(q[j].2 <= q[i].2);
    }
}

/// Settling an entry: overwrite the id's record when one exists, else
/// append a new one.
pub open spec fn vinsert_spec(
    m: Seq<(Seq<char>, Seq<char>, u64)>,
    x: (Seq<char>, Seq<char>, u64),
) -> Seq<(Seq<char>, Seq<char>, u64)> {
    if vcontains(m, x.0) {
        m.update(vidx(m, x.0), x)
    } else {
        m.push(x)
    }
}

/// What `vinsert_spec` does to lookups: the inserted id now maps to the
/// new record, every other id is untouched.
pub proof fn lemma_vinsert_props(m: Seq<(Seq<char>, Seq<char>, u64)>, x: (Seq<char>, Seq<char>, u64))
    requires
        vunique(m),
    ensures
        vunique(vinsert_spec(m, x)),
        vcontains(vinsert_spec(m, x), x.0),
        vdist(vinsert_spec(m, x), x.0) == x.2,
        vfrom(vinsert_spec(m, x), x.0) == x.1,
        vinsert_spec(m, x)[vidx(vinsert_spec(m, x), x.0)] == x,
        forall|k: Seq<char>|
            k != x.0 ==> vcontains(vinsert_spec(m, x), k) == vcontains(m, k),
        forall|k: Seq<char>|
            k != x.0 && vcontains(m, k) ==> vidx(vinsert_spec(m, x), k) == vidx(m, k) && vdist(
                vinsert_spec(m, x),
                k,
            ) == vdist(m, k) && vfrom(vinsert_spec(m, x), k) == vfrom(m, k),
        vcontains(m, x.0) ==> vinsert_spec(m, x).len() == m.len() && vidx(
            vinsert_spec(m, x),
            x.0,
        ) == vidx(m, x.0),
        !vcontains(m, x.0) ==> vinsert_spec(m, x).len() == m.len() + 1 && vidx(
            vinsert_spec(m, x),
            x.0,
        ) == m.len(),
        forall|i: int|
            0 <= i < m.len() && (#[trigger] m[i]).0 != x.0 ==> vinsert_spec(m, x)[i] == m[i],
{
    let m2 = vinsert_spec(m, x);
    if vcontains(m, x.0) {
        let p = vidx(m, x.0);
        assert(forall|i: int| 0 <= i < m.len() && i != p ==> m2[i] == m[i]);
        assert(forall|i: int|
            0 <= i < m2.len() ==> (#[trigger] m2[i]).0 == m[i].0);
        assert(vunique(m2));
        assert(m2[p] == x);
        assert(vcontains(m2, x.0));
        lemma_vidx_unique(m2, p, vidx(m2, x.0));
        assert forall|k: Seq<char>| k != x.0 implies vcontains(m2, k) == vcontains(m, k) by {
            if vcontains(m, k) {
                let i = vidx(m, k);
                assert(i != p);
                assert(m2[i].0 == k);
            }
            if vcontains(m2, k) {
                let i = vidx(m2, k);
                assert(m[i].0 == k);
            }
        }
        assert forall|k: Seq<char>| k != x.0 && vcontains(m, k) implies vidx(m2, k) == vidx(m, k)
            && vdist(m2, k) == vdist(m, k) && vfrom(m2, k) == vfrom(m, k) by {
            let i = vidx(m, k);
            assert(i != p);
            assert(m2[i].0 == k);
            assert(vcontains(m2, k));
            lemma_vidx_unique(m2, i, vidx(m2, k));
        }
        assert forall|i: int| 0 <= i < m.len() && (#[trigger] m[i]).0 != x.0 implies m2[i] == m[i]
            by {
            assert(i != p);
        }
    } else {
        assert(forall|i: int| 0 <= i < m.len() ==> m2[i] == m[i]);
        assert(vunique(m2)) by {
            assert forall|i: int, j: int| 0 <= i < j < m2.len() implies (#[trigger] m2[i]).0 != (
            #[trigger] m2[j]).0 by {
                if j == m.len() {
                    if m2[i].0 == x.0 {
                        assert(m[i].0 == x.0);
                        assert(vcontains(m, x.0));
                    }
                }
            }
        }
        assert(m2[m.len() as int] == x);
        assert(vcontains(m2, x.0));
        lemma_vidx_unique(m2, m.len() as int, vidx(m2, x.0));
        assert forall|k: Seq<char>| k != x.0 implies vcontains(m2, k) == vcontains(m, k) by {
            if vcontains(m, k) {
                let i = vidx(m, k);
                assert(m2[i].0 == k);
            }
            if vcontains(m2, k) {
                let i = vidx(m2, k);
                assert(i < m.len());
                assert(m[i].0 == k);
            }
        }
        assert forall|k: Seq<char>| k != x.0 && vcontains(m, k) implies vidx(m2, k) == vidx(m, k)
            && vdist(m2, k) == vdist(m, k) && vfrom(m2, k) == vfrom(m, k) by {
            let i = vidx(m, k);
            assert(m2[i].0 == k);
            assert(vcontains(m2, k));
            lemma_vidx_unique(m2, i, vidx(m2, k));
        }
    }
}

/// What one neighbor contributes to the frontier: nothing unless the
/// candidate cumulative distance improves on an already settled record
/// (the standard relaxation), else one entry tagged with the current id
/// and that candidate distance.
pub open spec fn dijk_expand_one(
    vis: Seq<(Seq<char>, Seq<char>, u64)>,
    cur: Seq<char>,
    base: u64,
    x: (Seq<char>, u64),
) -> Seq<(Seq<char>, Seq<char>, u64)> {
    if vcontains(vis, x.0) && vdist(vis, x.0) <= base.saturating_add(x.1) {
        Seq::empty()
    } else {
        seq![(x.0, cur, base.saturating_add(x.1))]
    }
}

/// The entries a `Push` step appends: one `dijk_expand_one` contribution
/// per neighbor, in the neighbor mapping's sorted order.
pub open spec fn dijk_expand(
    edges: Seq<(Seq<char>, u64)>,
    vis: Seq<(Seq<char>, Seq<char>, u64)>,
    cur: Seq<char>,
    base: u64,
) -> Seq<(Seq<char>, Seq<char>, u64)>
    decreases edges.len(),
{
    if edges.len() == 0 {
        Seq::empty()
    } else {
        dijk_expand_one(vis, cur, base, edges[0]) + dijk_expand(edges.skip(1), vis, cur, base)
    }
}

/// Expanding one more neighbor appends its contribution.
pub proof fn lemma_dijk_expand_snoc(
    edges: Seq<(Seq<char>, u64)>,
    vis: Seq<(Seq<char>, Seq<char>, u64)>,
    cur: Seq<char>,
    base: u64,
    x: (Seq<char>, u64),
)
    ensures
        dijk_expand(edges.push(x), vis, cur, base) == dijk_expand(edges, vis, cur, base)
            + dijk_expand_one(vis, cur, base, x),
    decreases edges.len(),
{
    let whole = edges.push(x);
    if edges.len() == 0 {
        assert(whole[0] == x);
        assert(whole.skip(1) =~= Seq::<(Seq<char>, u64)>::empty());
        assert(dijk_expand(whole.skip(1), vis, cur, base) =~= Seq::<
            (Seq<char>, Seq<char>, u64),
        >::empty());
        assert(dijk_expand(whole, vis, cur, base) =~= dijk_expand_one(vis, cur, base, x));
        assert(dijk_expand(edges, vis, cur, base) + dijk_expand_one(vis, cur, base, x)
            =~= dijk_expand_one(vis, cur, base, x));
    } else {
        assert(whole[0] == edges[0]);
        assert(whole.skip(1) =~= edges.skip(1).push(x));
        lemma_dijk_expand_snoc(edges.skip(1), vis, cur, base, x);
        assert(dijk_expand(whole, vis, cur, base) =~= dijk_expand(edges, vis, cur, base)
            + dijk_expand_one(vis, cur, base, x));
    }
}

/// A frontier entry is sound: either the seeded start entry, or a
/// non-start id with a settled predecessor, a real edge from it, and a
/// distance no better than the cumulative distance through it.
pub open spec fn dijk_qentry_ok(
    g: Graph,
    vis: Seq<(Seq<char>, Seq<char>, u64)>,
    qlen: int,
    start: Seq<char>,
    e: (Seq<char>, Seq<char>, u64),
) -> bool {
    if e.1 == sentinel() {
        e.0 == start && e.2 == 0 && vis.len() == 0 && qlen == 1
    } else {
        &&& e.0 != start
        &&& e.1 != e.0
        &&& vcontains(vis, e.1)
        &&& g.contains_id(e.1)
        &&& g.node_of(e.1).edge_lookup(e.0) is Some
        &&& e.2 >= vdist(vis, e.1).saturating_add(g.node_of(e.1).edge_lookup(e.0)->Some_0)
    }
}

/// A visited record is sound: the start sits at index zero with the
/// sentinel and distance zero; every other record names a settled
/// non-start predecessor with a real edge, and carries a distance no
/// better than the cumulative distance through that predecessor.
pub open spec fn dijk_ventry_ok(
    g: Graph,
    vis: Seq<(Seq<char>, Seq<char>, u64)>,
    start: Seq<char>,
    i: int,
) -> bool {
    let e = vis[i];
    if i == 0 {
        e.0 == start && e.1 == sentinel() && e.2 == 0
    } else {
        &&& e.1 != sentinel()
        &&& e.0 != start
        &&& e.1 != e.0
        &&& vcontains(vis, e.1)
        &&& g.contains_id(e.1)
        &&& g.node_of(e.1).edge_lookup(e.0) is Some
        &&& e.2 >= vdist(vis, e.1).saturating_add(g.node_of(e.1).edge_lookup(e.0)->Some_0)
    }
}

/// Dijkstra-style shortest-path search over a borrowed graph, for
/// non-negative weights.
pub struct ShortestPath<'a> {
    pub graph: &'a Graph,
    pub start: Ghost<Seq<char>>,
    pub current: String,
    pub dest: String,
    pub queue: Vec<(String, (String, u64))>,
    pub visited: Vec<(String, (String, u64))>,
    pub state: State,
}

impl<'a> ShortestPath<'a> {
    /// The machine's well-formedness, kept by construction and by every
    /// `next` step.
    pub open spec fn inv(&self) -> bool {
        let g = *self.graph;
        let vis = qv(self.visited@);
        let q = qv(self.queue@);
        &&& g.wf()
        &&& g.contains_id(self.dest@)
        &&& vunique(vis)
        &&& forall|i: int| 0 <= i < q.len() ==> g.contains_id((#[trigger] q[i]).0)
        &&& forall|i: int|
            0 <= i < q.len() ==> dijk_qentry_ok(g, vis, q.len() as int, self.start@, #[trigger] q[i])
        &&& forall|i: int| 0 <= i < vis.len() ==> g.contains_id((#[trigger] vis[i]).0)
        &&& forall|i: int| 0 <= i < vis.len() ==> #[trigger] dijk_ventry_ok(g, vis, self.start@, i)
        &&& self.state == State::Push ==> g.contains_id(self.current@) && vcontains(
            vis,
            self.current@,
        )
        &&& (vcontains(vis, self.dest@) <==> self.state == State::Done(Status::Found))
        &&& self.state == State::Done(Status::NotFound) ==> q.len() == 0
        &&& !(self.state == State::Done(Status::Searching))
        &&& opt_inv(*self)
        &&& mono_inv(*self)
    }

    /// A fresh machine: frontier seeded with the start entry, nothing
    /// visited, about to pop.
    pub fn new(graph: &'a Graph, start: &str, dest: &str) -> (s: ShortestPath<'a>)
        requires
            graph.wf(),
            graph.contains_id(start@),
            graph.contains_id(dest@),
        ensures
            s.inv(),
            s.graph == graph,
            s.start@ == start@,
            s.dest@ == dest@,
            s.current@ == sentinel(),
            qv(s.queue@) == seq![(start@, sentinel(), 0u64)],
            s.visited@.len() == 0,
            s.state == State::Pop,
    {
        let mut queue: Vec<(String, (String, u64))> = Vec::new();
        queue.push((start.to_owned(), (String::new(), 0u64)));
        let s = ShortestPath {
            graph,
            start: Ghost(start@),
            current: String::new(),
            dest: dest.to_owned(),
            queue,
            visited: Vec::new(),
            state: State::Pop,
        };
        proof {
            assert(qv(s.queue@) =~= seq![(start@, sentinel(), 0u64)]);
            assert(s.current@ =~= sentinel());
            assert(qv(s.queue@)[0].0 == start@);
            assert(opt_inv(s)) by {
                assert(qv(s.queue@)[0] == (start@, sentinel(), 0u64));
            }
            assert(mono_inv(s));
        }
        s
    }

    /// The id most recently examined (the empty sentinel before the
    /// first successful pop; stale pops update it too).
    pub fn current(&self) -> (r: &str)
        ensures
            r@ == self.current@,
    {
        self.current.as_str()
    }

    /// A snapshot of the frontier, in storage order.
    pub fn visible(&self) -> (r: Vec<(String, (String, u64))>)
        ensures
            r@ == self.queue@,
    {
        clone_entries(&self.queue)
    }

    /// A snapshot of the visited mapping, in settlement order.
    pub fn visited(&self) -> (r: Vec<(String, (String, u64))>)
        ensures
            r@ == self.visited@,
    {
        clone_entries(&self.visited)
    }

    pub fn state(&self) -> (r: State)
        ensures
            r == self.state,
    {
        self.state
    }

    /// Advances exactly one micro-step and reports the resulting status;
    /// after a terminal state is reached, further calls change nothing
    /// and keep returning the stored status. A stale pop stays in `Pop`
    /// and writes nothing.
    #[verifier::loop_isolation(false)]
    pub fn next(&mut self) -> (r: Status)
        requires
            old(self).inv(),
        ensures
            final(self).inv(),
            final(self).graph == old(self).graph,
            final(self).start == old(self).start,
            final(self).dest@ == old(self).dest@,
            match old(self).state {
                State::Done(st) => r == st && *final(self) == *old(self),
                State::Pop => {
                    if old(self).queue@.len() == 0 {
                        &&& r == Status::NotFound
                        &&& final(self).state == State::Done(Status::NotFound)
                        &&& final(self).queue@ == old(self).queue@
                        &&& final(self).visited@ == old(self).visited@
                        &&& final(self).current@ == old(self).current@
                    } else {
                        let q = qv(old(self).queue@);
                        let mi = first_min_idx(q);
                        let e = q[mi];
                        &&& is_first_min(q, mi)
                        &&& final(self).queue@ == old(self).queue@.remove(mi)
                        &&& if e.0 == old(self).dest@ {
                            &&& r == Status::Found
                            &&& final(self).state == State::Done(Status::Found)
                            &&& qv(final(self).visited@) == vinsert_spec(qv(old(self).visited@), e)
                            &&& final(self).current@ == old(self).current@
                        } else if vcontains(qv(old(self).visited@), e.0) && vdist(
                            qv(old(self).visited@),
                            e.0,
                        ) < e.2 {
                            &&& r == Status::Searching
                            &&& final(self).state == State::Pop
                            &&& final(self).visited@ == old(self).visited@
                            &&& final(self).current@ == e.0
                        } else {
                            &&& r == Status::Searching
                            &&& final(self).state == State::Push
                            &&& qv(final(self).visited@) == vinsert_spec(qv(old(self).visited@), e)
                            &&& final(self).current@ == e.0
                        }
                    }
                },
                State::Push => {
                    let cur = old(self).current@;
                    let vis = qv(old(self).visited@);
                    let exp = dijk_expand(
                        edge_views(old(self).graph.node_of(cur)),
                        vis,
                        cur,
                        vdist(vis, cur),
                    );
                    &&& r == Status::Searching
                    &&& final(self).state == State::Pop
                    &&& qv(final(self).queue@) == qv(old(self).queue@) + exp
                    &&& final(self).visited@ == old(self).visited@
                    &&& final(self).current@ == old(self).current@
                },
            },
    {
        match self.state {
            State::Done(status) => status,
            State::Pop => {
                if self.queue.len() == 0 {
                    let ghost pre = *self;
                    self.state = State::Done(Status::NotFound);
                    proof {
                        lemma_opt_step(pre, *self);
                        lemma_mono_step(pre, *self);
                    }
                    Status::NotFound
                } else {
                    let ghost pre = *self;
                    let mi = find_min_idx(&self.queue);
                    proof {
                        lemma_first_min_unique(
                            qv(pre.queue@),
                            mi as int,
                            first_min_idx(qv(pre.queue@)),
                        );
                    }
                    let e = self.queue.remove(mi);
                    proof {
                        assert(qv(self.queue@) =~= qv(pre.queue@).remove(mi as int));
                        assert(ev(e) == qv(pre.queue@)[mi as int]);
                        lemma_dijk_queue_remove(pre, mi as int);
                    }
                    let is_dest = id_eq(e.0.as_str(), self.dest.as_str());
                    if is_dest {
                        proof {
                            assert(!vcontains(qv(pre.visited@), ev(e).0));
                            lemma_dijk_settle(pre, mi as int);
                            lemma_vinsert_props(qv(pre.visited@), ev(e));
                        }
                        vinsert(&mut self.visited, e);
                        self.state = State::Done(Status::Found);
                        proof {
                            assert(vcontains(qv(self.visited@), self.dest@));
                            lemma_opt_step(pre, *self);
                            lemma_mono_step(pre, *self);
                        }
                        Status::Found
                    } else {
                        self.current = e.0.clone();
                        let stale: bool;
                        match vfind(&self.visited, self.current.as_str()) {
                            Some(i) => {
                                proof {
                                    assert(qv(self.visited@)[i as int] == ev(
                                        self.visited@[i as int],
                                    ));
                                    assert(vcontains(qv(self.visited@), ev(e).0));
                                    lemma_vidx_unique(
                                        qv(self.visited@),
                                        i as int,
                                        vidx(qv(self.visited@), ev(e).0),
                                    );
                                }
                                stale = self.visited[i].1.1 < e.1.1;
                            },
                            None => {
                                stale = false;
                            },
                        }
                        proof {
                            assert(stale == (vcontains(qv(pre.visited@), ev(e).0) && vdist(
                                qv(pre.visited@),
                                ev(e).0,
                            ) < ev(e).2));
                        }
                        if stale {
                            proof {
                                lemma_opt_step(pre, *self);
                                lemma_mono_step(pre, *self);
                            }
                            Status::Searching
                        } else {
                            proof {
                                lemma_dijk_settle(pre, mi as int);
                                lemma_vinsert_props(qv(pre.visited@), ev(e));
                            }
                            vinsert(&mut self.visited, e);
                            self.state = State::Push;
                            proof {
                                assert(vcontains(qv(self.visited@), self.current@));
                                assert(!vcontains(qv(self.visited@), self.dest@)) by {
                                    if vcontains(qv(self.visited@), self.dest@) {
                                        assert(vcontains(qv(pre.visited@), self.dest@));
                                    }
                                }
                                lemma_opt_step(pre, *self);
                                lemma_mono_step(pre, *self);
                            }
                            Status::Searching
                        }
                    }
                }
            },
            State::Push => {
                let ghost pre = *self;
                let g: &Graph = self.graph;
                let ni = match g.find(self.current.as_str()) {
                    Some(ni) => ni,
                    None => {
                        proof {
                            assert(false);
                        }
                        vstd::pervasive::unreached()
                    },
                };
                proof {
                    crate::graph::lemma_id_unique_all(*g);
                    assert(g.idx_of(self.current@) == ni as int);
                    assert(g.node_of(self.current@) == g.nodes@[ni as int]);
                }
                let vi = match vfind(&self.visited, self.current.as_str()) {
                    Some(vi) => vi,
                    None => {
                        proof {
                            assert(false);
                        }
                        vstd::pervasive::unreached()
                    },
                };
                proof {
                    lemma_vidx_unique(
                        qv(self.visited@),
                        vi as int,
                        vidx(qv(self.visited@), self.current@),
                    );
                }
                let base: u64 = self.visited[vi].1.1;
                let ghost cur = pre.current@;
                let ghost vis0 = qv(pre.visited@);
                let ghost evs = edge_views(pre.graph.node_of(cur));
                let mut j: usize = 0;
                while j < g.nodes[ni].edges.len()
                    invariant
                        self.graph == pre.graph,
                        self.start == pre.start,
                        self.current@ == pre.current@,
                        self.dest@ == pre.dest@,
                        self.visited@ == pre.visited@,
                        self.state == pre.state,
                        0 <= j <= evs.len(),
                        evs.len() == g.nodes@[ni as int].edges@.len(),
                        qv(self.queue@) == qv(pre.queue@) + dijk_expand(
                            evs.take(j as int),
                            vis0,
                            cur,
                            base,
                        ),
                        forall|i: int|
                            0 <= i < qv(self.queue@).len() ==> (*pre.graph).contains_id(
                                (#[trigger] qv(self.queue@)[i]).0,
                            ),
                        forall|i: int|
                            0 <= i < qv(self.queue@).len() ==> dijk_qentry_ok(
                                *pre.graph,
                                qv(self.visited@),
                                qv(self.queue@).len() as int,
                                self.start@,
                                #[trigger] qv(self.queue@)[i],
                            ),
                    decreases evs.len() - j,
                {
                    let ghost qpre = *self;
                    proof {
                        assert(evs[j as int] == (
                            g.nodes@[ni as int].edges@[j as int].0@,
                            g.nodes@[ni as int].edges@[j as int].1,
                        ));
                        assert(evs.take(j as int + 1) =~= evs.take(j as int).push(evs[j as int]));
                        lemma_dijk_expand_snoc(evs.take(j as int), vis0, cur, base, evs[j as int]);
                    }
                    let cand: u64 = base.saturating_add(g.nodes[ni].edges[j].1);
                    let skip: bool;
                    match vfind(&self.visited, g.nodes[ni].edges[j].0.as_str()) {
                        Some(i) => {
                            proof {
                                assert(qv(self.visited@)[i as int] == ev(self.visited@[i as int]));
                                assert(vcontains(qv(self.visited@), evs[j as int].0));
                                lemma_vidx_unique(
                                    qv(self.visited@),
                                    i as int,
                                    vidx(qv(self.visited@), evs[j as int].0),
                                );
                            }
                            skip = self.visited[i].1.1 <= cand;
                        },
                        None => {
                            skip = false;
                        },
                    }
                    proof {
                        assert(skip == (vcontains(vis0, evs[j as int].0) && vdist(
                            vis0,
                            evs[j as int].0,
                        ) <= cand));
                    }
                    if !skip {
                        let entry = (
                            g.nodes[ni].edges[j].0.clone(),
                            (self.current.clone(), cand),
                        );
                        proof {
                            lemma_dijk_push_entry(
                                pre,
                                evs,
                                cur,
                                base,
                                j as int,
                                ni as int,
                                vi as int,
                                ev(entry),
                            );
                        }
                        self.queue.push(entry);
                        proof {
                            assert(qv(self.queue@) =~= qv(qpre.queue@) + seq![ev(entry)]);
                            assert(ev(entry) == (evs[j as int].0, cur, cand));
                            assert(qv(qpre.queue@) + seq![ev(entry)] =~= qv(pre.queue@)
                                + dijk_expand(evs.take(j as int + 1), vis0, cur, base));
                        }
                    } else {
                        proof {
                            assert(dijk_expand_one(vis0, cur, base, evs[j as int]) =~= Seq::<
                                (Seq<char>, Seq<char>, u64),
                            >::empty());
                            assert(dijk_expand(evs.take(j as int + 1), vis0, cur, base)
                                =~= dijk_expand(evs.take(j as int), vis0, cur, base));
                        }
                    }
                    j = j + 1;
                }
                proof {
                    assert(evs.take(evs.len() as int) =~= evs);
                }
                self.state = State::Pop;
                proof {
                    lemma_opt_step(pre, *self);
                    lemma_mono_step(pre, *self);
                }
                Status::Searching
            },
        }
    }

    /// The found path, start to destination, when the machine is done
    /// with `Found`: the predecessor walk from the destination, reversed.
    /// It is a valid simple path carrying exactly the cumulative weights
    /// of its prefixes, and no route from start to destination weighs
    /// less than its final entry records.
    pub fn result(&self) -> (r: Option<Vec<(String, u64)>>)
        requires
            self.inv(),
        ensures
            (r is Some) <==> self.state == State::Done(Status::Found),
            r is Some ==> pv(r->Some_0@) == walk(
                qv(self.visited@),
                self.dest@,
                self.visited@.len() as nat,
            ).reverse(),
            r is Some ==> dijk_path_reported(
                *self.graph,
                self.start@,
                self.dest@,
                pv(r->Some_0@),
            ),
            r is Some ==> forall|route: Seq<Seq<char>>|
                wf_path(*self.graph, route) && route[0] == self.start@ && route[route.len() - 1]
                    == self.dest@ ==> pv(r->Some_0@)[r->Some_0@.len() - 1].1
                    <= #[trigger] path_weight(*self.graph, route),
    {
        match self.state {
            State::Done(Status::Found) => {
                let out = Some(reconstruct_path(&self.visited, self.dest.as_str()));
                proof {
                    let g = *self.graph;
                    let m = qv(self.visited@);
                    assert(vcontains(m, self.dest@));
                    lemma_dijk_path_valid(g, self.start@, self.dest@, m, pv(out->Some_0@));
                    let w = walk(m, self.dest@, self.visited@.len() as nat);
                    let a = vidx(m, self.dest@);
                    assert(0 <= a < m.len());
                    assert(w[0] == (self.dest@, vdist(m, self.dest@)) && w.len() >= 1);
                    assert(pv(out->Some_0@).len() == w.len());
                    assert(w.reverse()[w.len() - 1] == w[0]);
                    assert(pv(out->Some_0@)[w.len() - 1].1 == vdist(m, self.dest@));
                    assert forall|route: Seq<Seq<char>>|
                        wf_path(g, route) && route[0] == self.start@ && route[route.len() - 1]
                            == self.dest@ implies pv(out->Some_0@)[out->Some_0@.len() - 1].1
                        <= #[trigger] path_weight(g, route) by {
                        assert(vdist(m, route[route.len() - 1]) <= path_weight(g, route));
                    }
                }
                out
            },
            _ => None,
        }
    }
}

/// A machine that stopped with `NotFound` explored everything it could
/// reach: no route from the start to the destination exists at all.
pub proof fn lemma_dijk_not_found_complete(s: ShortestPath<'_>)
    requires
        s.inv(),
        s.state == State::Done(Status::NotFound),
    ensures
        forall|route: Seq<Seq<char>>|
            !(#[trigger] wf_path(*s.graph, route) && route[0] == s.start@ && route[route.len()
                - 1] == s.dest@),
{
    let g = *s.graph;
    let m = qv(s.visited@);
    let q = qv(s.queue@);
    assert(q.len() == 0);
    assert(!vcontains(m, s.dest@));
    assert forall|route: Seq<Seq<char>>|
        !(#[trigger] wf_path(g, route) && route[0] == s.start@ && route[route.len() - 1]
            == s.dest@) by {
        if wf_path(g, route) && route[0] == s.start@ && route[route.len() - 1] == s.dest@ {
            lemma_path_covered(g, s.start@, m, q, route);
            if exists|j: int| 0 <= j < route.len() && #[trigger] covered_at(g, q, route, j) {
                let j = choose|j: int| 0 <= j < route.len() && #[trigger] covered_at(g, q, route, j);
                let qi = choose|i: int|
                    0 <= i < q.len() && (#[trigger] q[i]).0 == route[j] && q[i].2 <= path_weight(
                        g,
                        route.take(j + 1),
                    );
                assert(false);
            } else {
                assert(vcontains(m, s.dest@));
            }
        }
    }
}

/// The index of the first entry carrying the minimal distance.
#[verifier::loop_isolation(false)]
pub fn find_min_idx(q: &Vec<(String, (String, u64))>) -> (r: usize)
    requires
        q@.len() > 0,
    ensures
        r < q@.len(),
        is_first_min(qv(q@), r as int),
{
    let mut best: usize = 0;
    let mut i: usize = 1;
    while i < q.len()
        invariant
            0 <= best < i <= q@.len(),
            forall|j: int| 0 <= j < i ==> qv(q@)[best as int].2 <= (#[trigger] qv(q@)[j]).2,
            forall|j: int| 0 <= j < best ==> (#[trigger] qv(q@)[j]).2 > qv(q@)[best as int].2,
        decreases q@.len() - i,
    {
        if q[i].1.1 < q[best].1.1 {
            proof {
                assert(qv(q@)[i as int].2 == q@[i as int].1.1);
            }
            best = i;
        }
        i = i + 1;
    }
    best
}

/// Settles a record in the visited mapping: overwrites the id's entry
/// when one exists, else appends it.
pub fn vinsert(v: &mut Vec<(String, (String, u64))>, e: (String, (String, u64)))
    requires
        vunique(qv(old(v)@)),
    ensures
        qv(final(v)@) == vinsert_spec(qv(old(v)@), ev(e)),
{
    let found = vfind(v, e.0.as_str());
    match found {
        Some(i) => {
            proof {
                assert(qv(v@)[i as int] == ev(v@[i as int]));
                assert(vcontains(qv(v@), ev(e).0));
                lemma_vidx_unique(qv(v@), i as int, vidx(qv(v@), ev(e).0));
            }
            v[i] = e;
            proof {
                assert(qv(v@) =~= vinsert_spec(qv(old(v)@), ev(e)));
            }
        },
        None => {
            v.push(e);
            proof {
                assert(qv(v@) =~= vinsert_spec(qv(old(v)@), ev(e)));
            }
        },
    }
}

/// Saturating addition never shrinks when its first argument grows.
proof fn lemma_sat_mono(a: u64, b: u64, w: u64)
    requires
        a <= b,
    ensures
        a.saturating_add(w) <= b.saturating_add(w),
{
}

/// Removing any frontier entry leaves every remaining entry sound with
/// respect to the unchanged visited mapping.
proof fn lemma_dijk_queue_remove(pre: ShortestPath<'_>, mi: int)
    requires
        pre.inv(),
        0 <= mi < qv(pre.queue@).len(),
    ensures
        forall|i: int|
            0 <= i < qv(pre.queue@).remove(mi).len() ==> (*pre.graph).contains_id(
                (#[trigger] qv(pre.queue@).remove(mi)[i]).0,
            ),
        forall|i: int|
            0 <= i < qv(pre.queue@).remove(mi).len() ==> dijk_qentry_ok(
                *pre.graph,
                qv(pre.visited@),
                qv(pre.queue@).remove(mi).len() as int,
                pre.start@,
                #[trigger] qv(pre.queue@).remove(mi)[i],
            ),
{
    let q = qv(pre.queue@);
    let q2 = q.remove(mi);
    assert(forall|i: int| 0 <= i < mi ==> q2[i] == q[i]);
    assert(forall|i: int| mi <= i < q2.len() ==> q2[i] == q[i + 1]);
    assert forall|i: int| 0 <= i < q2.len() implies dijk_qentry_ok(
        *pre.graph,
        qv(pre.visited@),
        q2.len() as int,
        pre.start@,
        #[trigger] q2[i],
    ) by {
        let ip = if i < mi {
            i
        } else {
            i + 1
        };
        assert(q2[i] == q[ip]);
        assert(dijk_qentry_ok(*pre.graph, qv(pre.visited@), q.len() as int, pre.start@, q[ip]));
        if q[ip].1 == sentinel() {
            assert(q.len() == 1);
            assert(false);
        }
    }
}

/// Settling the popped entry — new id, or an overwrite that does not
/// worsen the recorded distance — keeps every record and every remaining
/// frontier entry sound.
#[verifier::rlimit(60)]
#[verifier::spinoff_prover]
proof fn lemma_dijk_settle(pre: ShortestPath<'_>, mi: int)
    requires
        pre.inv(),
        0 <= mi < qv(pre.queue@).len(),
        vcontains(qv(pre.visited@), qv(pre.queue@)[mi].0) ==> qv(pre.queue@)[mi].2 <= vdist(
            qv(pre.visited@),
            qv(pre.queue@)[mi].0,
        ),
    ensures
        vunique(vinsert_spec(qv(pre.visited@), qv(pre.queue@)[mi])),
        forall|i: int|
            0 <= i < vinsert_spec(qv(pre.visited@), qv(pre.queue@)[mi]).len() ==> (
            *pre.graph).contains_id(
                (#[trigger] vinsert_spec(qv(pre.visited@), qv(pre.queue@)[mi])[i]).0,
            ),
        forall|i: int|
            0 <= i < vinsert_spec(qv(pre.visited@), qv(pre.queue@)[mi]).len()
                ==> #[trigger] dijk_ventry_ok(
                *pre.graph,
                vinsert_spec(qv(pre.visited@), qv(pre.queue@)[mi]),
                pre.start@,
                i,
            ),
        forall|i: int|
            0 <= i < qv(pre.queue@).remove(mi).len() ==> dijk_qentry_ok(
                *pre.graph,
                vinsert_spec(qv(pre.visited@), qv(pre.queue@)[mi]),
                qv(pre.queue@).remove(mi).len() as int,
                pre.start@,
                #[trigger] qv(pre.queue@).remove(mi)[i],
            ),
        vcontains(
            vinsert_spec(qv(pre.visited@), qv(pre.queue@)[mi]),
            qv(pre.queue@)[mi].0,
        ),
{
    let g = *pre.graph;
    let vis = qv(pre.visited@);
    let q = qv(pre.queue@);
    let e = q[mi];
    let vis2 = vinsert_spec(vis, e);
    let q2 = q.remove(mi);
    lemma_vinsert_props(vis, e);
    assert(dijk_qentry_ok(g, vis, q.len() as int, pre.start@, e));
    // distances never worsen: lookups for other ids are untouched, and
    // the settled id's record moves down to the popped distance
    assert forall|k: Seq<char>|
        vcontains(vis, k) implies vcontains(vis2, k) && vdist(vis2, k) <= vdist(vis, k) by {
        if k == e.0 {
            assert(vdist(vis2, k) == e.2);
        }
    }
    assert forall|i: int| 0 <= i < vis2.len() implies (*pre.graph).contains_id(
        (#[trigger] vis2[i]).0,
    ) by {
        if vcontains(vis, e.0) {
            if i == vidx(vis, e.0) {
                assert(vis2[i] == e);
            } else {
                assert(vis2[i] == vis[i]);
            }
        } else {
            if i < vis.len() {
                assert(vis2[i] == vis[i]);
            } else {
                assert(vis2[i] == e);
            }
        }
    }
    assert forall|i: int| 0 <= i < vis2.len() implies #[trigger] dijk_ventry_ok(
        g,
        vis2,
        pre.start@,
        i,
    ) by {
        let pos = if vcontains(vis, e.0) {
            vidx(vis, e.0)
        } else {
            vis.len() as int
        };
        if e.1 == sentinel() {
            assert(vis.len() == 0);
            assert(i == 0 && vis2[0] == e);
        } else {
            assert(e.0 != pre.start@);
            if vis.len() > 0 {
                assert(dijk_ventry_ok(g, vis, pre.start@, 0));
                assert(vis[0].0 == pre.start@);
                assert(pos != 0);
            }
            if i == pos {
                assert(vis2[i] == e);
                assert(i != 0);
                assert(e.1 != e.0);
                assert(vcontains(vis2, e.1) && vdist(vis2, e.1) <= vdist(vis, e.1));
                lemma_sat_mono(
                    vdist(vis2, e.1),
                    vdist(vis, e.1),
                    g.node_of(e.1).edge_lookup(e.0)->Some_0,
                );
            } else {
                let old_e = vis[i];
                assert(vis2[i] == old_e);
                assert(dijk_ventry_ok(g, vis, pre.start@, i));
                if i != 0 {
                    assert(old_e.1 != e.0 || old_e.1 == e.0);
                    assert(vcontains(vis2, old_e.1) && vdist(vis2, old_e.1) <= vdist(vis, old_e.1));
                    lemma_sat_mono(
                        vdist(vis2, old_e.1),
                        vdist(vis, old_e.1),
                        g.node_of(old_e.1).edge_lookup(old_e.0)->Some_0,
                    );
                }
            }
        }
    }
    assert(forall|i: int| 0 <= i < mi ==> q2[i] == q[i]);
    assert(forall|i: int| mi <= i < q2.len() ==> q2[i] == q[i + 1]);
    assert forall|i: int| 0 <= i < q2.len() implies dijk_qentry_ok(
        g,
        vis2,
        q2.len() as int,
        pre.start@,
        #[trigger] q2[i],
    ) by {
        let ip = if i < mi {
            i
        } else {
            i + 1
        };
        assert(q2[i] == q[ip]);
        let qe = q[ip];
        assert(dijk_qentry_ok(g, vis, q.len() as int, pre.start@, qe));
        if qe.1 == sentinel() {
            assert(q.len() == 1);
            assert(false);
        } else {
            assert(vcontains(vis2, qe.1) && vdist(vis2, qe.1) <= vdist(vis, qe.1));
            lemma_sat_mono(
                vdist(vis2, qe.1),
                vdist(vis, qe.1),
                g.node_of(qe.1).edge_lookup(qe.0)->Some_0,
            );
        }
    }
}

/// The entry built for a neighbor that passes the relaxation check
/// satisfies the frontier soundness conditions.
proof fn lemma_dijk_push_entry(
    pre: ShortestPath<'_>,
    evs: Seq<(Seq<char>, u64)>,
    cur: Seq<char>,
    base: u64,
    j: int,
    ni: int,
    vi: int,
    e: (Seq<char>, Seq<char>, u64),
)
    requires
        pre.inv(),
        pre.state == State::Push,
        0 <= ni < pre.graph.nodes@.len(),
        pre.graph.nodes@[ni].id@ == cur,
        pre.graph.idx_of(cur) == ni,
        cur == pre.current@,
        evs == edge_views(pre.graph.node_of(cur)),
        0 <= vi < qv(pre.visited@).len(),
        qv(pre.visited@)[vi].0 == cur,
        base == vdist(qv(pre.visited@), cur),
        0 <= j < evs.len(),
        e == (evs[j].0, cur, base.saturating_add(evs[j].1)),
        !(vcontains(qv(pre.visited@), e.0) && vdist(qv(pre.visited@), e.0)
            <= base.saturating_add(evs[j].1)),
    ensures
        (*pre.graph).contains_id(e.0),
        dijk_qentry_ok(*pre.graph, qv(pre.visited@), 0, pre.start@, e),
{
    let g = *pre.graph;
    let vis = qv(pre.visited@);
    let node = g.node_of(cur);
    assert(node.edges@[j].0@ == evs[j].0 && node.edges@[j].1 == evs[j].1);
    assert(g.contains_id(e.0)) by {
        assert(g.nodes@[ni].edges@[j].0@ == e.0);
    }
    assert(node.edge_lookup(e.0) == Some(evs[j].1)) by {
        assert(node.has_edge(e.0));
        lemma_sorted_key_unique(node.edges@, j, node.edge_idx(e.0));
    }
    assert(e.1 == cur);
    assert(cur != sentinel()) by {
        assert(g.node_of(cur).wf());
        assert(g.node_of(cur).id@ == cur) by {
            assert(g.nodes@[ni].id@ == cur);
        }
    }
    assert(vcontains(vis, cur)) by {
        assert(vis[vi].0 == cur);
    }
    // the current id itself never passes the check: its settled distance
    // is no larger than any candidate through it
    assert(e.0 != cur) by {
        if e.0 == cur {
            lemma_vidx_unique(vis, vi, vidx(vis, cur));
            assert(vdist(vis, cur) == base);
            assert(base <= base.saturating_add(evs[j].1));
        }
    }
    // nor does the start: its settled distance is zero
    assert(e.0 != pre.start@) by {
        if e.0 == pre.start@ {
            assert(vis.len() > 0);
            assert(dijk_ventry_ok(g, vis, pre.start@, 0));
            assert(vis[0].0 == pre.start@);
            assert(vcontains(vis, pre.start@));
            lemma_vidx_unique(vis, 0, vidx(vis, pre.start@));
            assert(vdist(vis, pre.start@) == 0);
        }
    }
}

/// Every expansion entry is a candidate that passed the relaxation
/// check, in the stated shape.
pub proof fn lemma_dijk_expand_elems(
    edges: Seq<(Seq<char>, u64)>,
    vis: Seq<(Seq<char>, Seq<char>, u64)>,
    cur: Seq<char>,
    base: u64,
)
    ensures
        forall|j: int|
            0 <= j < dijk_expand(edges, vis, cur, base).len() ==> !(vcontains(
                vis,
                (#[trigger] dijk_expand(edges, vis, cur, base)[j]).0,
            ) && vdist(vis, dijk_expand(edges, vis, cur, base)[j].0) <= dijk_expand(
                edges,
                vis,
                cur,
                base,
            )[j].2),
    decreases edges.len(),
{
    if edges.len() > 0 {
        lemma_dijk_expand_elems(edges.skip(1), vis, cur, base);
        let head = dijk_expand_one(vis, cur, base, edges[0]);
        let rest = dijk_expand(edges.skip(1), vis, cur, base);
        assert forall|j: int| 0 <= j < dijk_expand(edges, vis, cur, base).len() implies !(
        vcontains(vis, (#[trigger] dijk_expand(edges, vis, cur, base)[j]).0) && vdist(
            vis,
            dijk_expand(edges, vis, cur, base)[j].0,
        ) <= dijk_expand(edges, vis, cur, base)[j].2) by {
            if j < head.len() {
                assert(dijk_expand(edges, vis, cur, base)[j] == head[0]);
            } else {
                assert(dijk_expand(edges, vis, cur, base)[j] == rest[j - head.len()]);
            }
        }
    }
}

/// Total distance recorded across the visited mapping: the drivers'
/// secondary termination measure, lowered by every strict improvement.
pub open spec fn settled_sum(m: Seq<(Seq<char>, Seq<char>, u64)>) -> nat
    decreases m.len(),
{
    if m.len() == 0 {
        0
    } else {
        m[0].2 as nat + settled_sum(m.skip(1))
    }
}

/// Overwriting one record never raises the total; a strictly smaller
/// distance strictly lowers it.
pub proof fn lemma_settled_sum_update(
    m: Seq<(Seq<char>, Seq<char>, u64)>,
    p: int,
    x: (Seq<char>, Seq<char>, u64),
)
    requires
        0 <= p < m.len(),
    ensures
        x.2 <= m[p].2 ==> settled_sum(m.update(p, x)) <= settled_sum(m),
        x.2 < m[p].2 ==> settled_sum(m.update(p, x)) < settled_sum(m),
        x.2 == m[p].2 ==> settled_sum(m.update(p, x)) == settled_sum(m),
    decreases m.len(),
{
    let m2 = m.update(p, x);
    if p == 0 {
        assert(m2.skip(1) =~= m.skip(1));
        assert(m2[0] == x);
    } else {
        assert(m2.skip(1) =~= m.skip(1).update(p - 1, x));
        assert(m2[0] == m[0]);
        lemma_settled_sum_update(m.skip(1), p - 1, x);
    }
}

/// Appending a record adds exactly its distance to the total.
pub proof fn lemma_settled_sum_push(
    m: Seq<(Seq<char>, Seq<char>, u64)>,
    x: (Seq<char>, Seq<char>, u64),
)
    ensures
        settled_sum(m.push(x)) == settled_sum(m) + x.2,
    decreases m.len(),
{
    let m2 = m.push(x);
    if m.len() == 0 {
        assert(m2.skip(1) =~= Seq::<(Seq<char>, Seq<char>, u64)>::empty());
        assert(settled_sum(m2.skip(1)) == 0);
        assert(m2[0] == x);
    } else {
        assert(m2.skip(1) =~= m.skip(1).push(x));
        assert(m2[0] == m[0]);
        lemma_settled_sum_push(m.skip(1), x);
    }
}

/// A frontier entry whose distance matches its id's settled record: such
/// an entry neither improves anything nor goes stale when popped, so the
/// count of them is the drivers' tertiary termination measure.
pub open spec fn equal_entry(
    vis: Seq<(Seq<char>, Seq<char>, u64)>,
    e: (Seq<char>, Seq<char>, u64),
) -> bool {
    vcontains(vis, e.0) && vdist(vis, e.0) == e.2
}

pub open spec fn equal_count(
    q: Seq<(Seq<char>, Seq<char>, u64)>,
    vis: Seq<(Seq<char>, Seq<char>, u64)>,
) -> nat
    decreases q.len(),
{
    if q.len() == 0 {
        0
    } else {
        (if equal_entry(vis, q[0]) {
            1nat
        } else {
            0nat
        }) + equal_count(q.skip(1), vis)
    }
}

/// Removing one frontier entry takes away exactly its own contribution.
pub proof fn lemma_equal_count_remove(
    q: Seq<(Seq<char>, Seq<char>, u64)>,
    vis: Seq<(Seq<char>, Seq<char>, u64)>,
    p: int,
)
    requires
        0 <= p < q.len(),
    ensures
        equal_count(q.remove(p), vis) == equal_count(q, vis) - (if equal_entry(vis, q[p]) {
            1nat
        } else {
            0nat
        }),
    decreases q.len(),
{
    let q2 = q.remove(p);
    if p == 0 {
        assert(q2 =~= q.skip(1));
    } else {
        assert(q2.skip(1) =~= q.skip(1).remove(p - 1));
        assert(q2[0] == q[0]);
        assert(q.skip(1)[p - 1] == q[p]);
        lemma_equal_count_remove(q.skip(1), vis, p - 1);
    }
}

/// Two visited mappings that classify every entry alike give the same
/// count.
pub proof fn lemma_equal_count_pointwise(
    q: Seq<(Seq<char>, Seq<char>, u64)>,
    vis1: Seq<(Seq<char>, Seq<char>, u64)>,
    vis2: Seq<(Seq<char>, Seq<char>, u64)>,
)
    requires
        forall|i: int|
            0 <= i < q.len() ==> equal_entry(vis1, #[trigger] q[i]) == equal_entry(vis2, q[i]),
    ensures
        equal_count(q, vis1) == equal_count(q, vis2),
    decreases q.len(),
{
    if q.len() > 0 {
        assert(forall|i: int| 0 <= i < q.skip(1).len() ==> #[trigger] q.skip(1)[i] == q[i + 1]);
        lemma_equal_count_pointwise(q.skip(1), vis1, vis2);
    }
}

/// The count distributes over concatenation.
pub proof fn lemma_equal_count_concat(
    a: Seq<(Seq<char>, Seq<char>, u64)>,
    b: Seq<(Seq<char>, Seq<char>, u64)>,
    vis: Seq<(Seq<char>, Seq<char>, u64)>,
)
    ensures
        equal_count(a + b, vis) == equal_count(a, vis) + equal_count(b, vis),
    decreases a.len(),
{
    if a.len() == 0 {
        assert(a + b =~= b);
    } else {
        assert((a + b).skip(1) =~= a.skip(1) + b);
        assert((a + b)[0] == a[0]);
        lemma_equal_count_concat(a.skip(1), b, vis);
    }
}

/// A list with no matching entry counts zero.
pub proof fn lemma_equal_count_zero(
    q: Seq<(Seq<char>, Seq<char>, u64)>,
    vis: Seq<(Seq<char>, Seq<char>, u64)>,
)
    requires
        forall|i: int| 0 <= i < q.len() ==> !equal_entry(vis, #[trigger] q[i]),
    ensures
        equal_count(q, vis) == 0,
    decreases q.len(),
{
    if q.len() > 0 {
        assert(forall|i: int| 0 <= i < q.skip(1).len() ==> #[trigger] q.skip(1)[i] == q[i + 1]);
        lemma_equal_count_zero(q.skip(1), vis);
    }
}

impl Graph {
    /// A fresh shortest-path machine for stepwise driving; both ids must
    /// already be in the graph.
    pub fn step_shortest_path<'a>(&'a self, start: &str, end: &str) -> (s: ShortestPath<'a>)
        requires
            self.wf(),
            self.contains_id(start@),
            self.contains_id(end@),
        ensures
            s.inv(),
            s.graph == self,
            s.start@ == start@,
            s.dest@ == end@,
            s.state == State::Pop,
            s.visited@.len() == 0,
            s.current@ == sentinel(),
            qv(s.queue@) == seq![(start@, sentinel(), 0u64)],
    {
        ShortestPath::new(self, start, end)
    }

    /// Runs a shortest-path search to completion. Rejects a start or end
    /// id that the graph does not hold. A found path is a valid simple
    /// path whose entries carry exactly the cumulative weights of its
    /// prefixes, and its total weight is no greater than that of any
    /// route from start to end: the path found is globally shortest by
    /// cumulative weight, weights being non-negative. When no path is
    /// reported, no route from start to end exists.
    pub fn shortest_path(&self, start: &str, end: &str) -> (r: Result<
        Option<Vec<(String, u64)>>,
        DoesNotContainError,
    >)
        requires
            self.wf(),
        ensures
            (r is Err) <==> !(self.contains_id(start@) && self.contains_id(end@)),
            r matches Ok(Some(p)) ==> dijk_path_reported(*self, start@, end@, pv(p@)),
            r matches Ok(Some(p)) ==> forall|route: Seq<Seq<char>>|
                wf_path(*self, route) && route[0] == start@ && route[route.len() - 1] == end@
                    ==> pv(p@)[p@.len() - 1].1 <= #[trigger] path_weight(*self, route),
            r matches Ok(None) ==> forall|route: Seq<Seq<char>>|
                !(#[trigger] wf_path(*self, route) && route[0] == start@ && route[route.len() - 1]
                    == end@),
    {
        if !self.contains_node(start) || !self.contains_node(end) {
            return Err(DoesNotContainError);
        }
        let mut search = ShortestPath::new(self, start, end);
        loop
            invariant_except_break
                search.inv(),
                search.graph == self,
                search.start@ == start@,
                search.dest@ == end@,
                !(search.state is Done),
                self.wf(),
                self.contains_id(start@),
                self.contains_id(end@),
            ensures
                search.inv(),
                search.graph == self,
                search.start@ == start@,
                search.dest@ == end@,
                search.state is Done,
            decreases
                unsettled_count(self.ids(), qv(search.visited@)),
                settled_sum(qv(search.visited@)),
                equal_count(qv(search.queue@), qv(search.visited@)),
                state_rank(search.state),
                search.queue@.len(),
        {
            let ghost spre = search;
            let st = search.next();
            proof {
                lemma_dijk_step_measure(spre, search);
            }
            match st {
                Status::Searching => {
                },
                _ => {
                    break ;
                },
            }
        }
        let res = search.result();
        proof {
            if res is None {
                assert(search.state == State::Done(Status::NotFound));
                lemma_dijk_not_found_complete(search);
            }
        }
        Ok(res)
    }
}

/// One `Searching` step lowers the layered measure: a new settlement
/// lowers the unsettled count; an improving overwrite lowers the settled
/// total; popping an equal entry lowers the equal count; an expansion
/// step lowers the state rank; a stale pop shortens the frontier.
proof fn lemma_dijk_step_measure(spre: ShortestPath<'_>, s: ShortestPath<'_>)
    requires
        spre.inv(),
        !(spre.state is Done),
        s.graph == spre.graph,
        s.start == spre.start,
        s.dest@ == spre.dest@,
        match spre.state {
            State::Done(st) => s == spre,
            State::Pop => {
                if spre.queue@.len() == 0 {
                    s.state == State::Done(Status::NotFound) && s.queue@ == spre.queue@
                        && s.visited@ == spre.visited@
                } else {
                    let q = qv(spre.queue@);
                    let mi = first_min_idx(q);
                    let e = q[mi];
                    &&& is_first_min(q, mi)
                    &&& s.queue@ == spre.queue@.remove(mi)
                    &&& if e.0 == spre.dest@ {
                        s.state == State::Done(Status::Found) && qv(s.visited@) == vinsert_spec(
                            qv(spre.visited@),
                            e,
                        )
                    } else if vcontains(qv(spre.visited@), e.0) && vdist(qv(spre.visited@), e.0)
                        < e.2 {
                        s.state == State::Pop && s.visited@ == spre.visited@
                    } else {
                        s.state == State::Push && qv(s.visited@) == vinsert_spec(
                            qv(spre.visited@),
                            e,
                        )
                    }
                }
            },
            State::Push => {
                let cur = spre.current@;
                let vis = qv(spre.visited@);
                let exp = dijk_expand(
                    edge_views(spre.graph.node_of(cur)),
                    vis,
                    cur,
                    vdist(vis, cur),
                );
                &&& s.state == State::Pop
                &&& qv(s.queue@) == qv(spre.queue@) + exp
                &&& s.visited@ == spre.visited@
            },
        },
    ensures
        !(s.state is Done) ==> lex_lower(spre, s),
{
    let g = *spre.graph;
    let ids = g.ids();
    let vis = qv(spre.visited@);
    let vis2 = qv(s.visited@);
    let q = qv(spre.queue@);
    let q2 = qv(s.queue@);
    if s.state is Done {
        return ;
    }
    match spre.state {
        State::Done(st) => {
            assert(false);
        },
        State::Pop => {
            let mi = first_min_idx(q);
            let e = q[mi];
            assert(q2 =~= q.remove(mi));
            if e.0 == spre.dest@ {
                assert(false);
            } else if vcontains(vis, e.0) && vdist(vis, e.0) < e.2 {
                // stale: nothing settled; the frontier shrinks
                assert(vis2 == vis);
                assert(!equal_entry(vis, e));
                lemma_equal_count_remove(q, vis, mi);
                assert(equal_count(q2, vis2) == equal_count(q, vis));
                assert(s.queue@.len() < spre.queue@.len());
            } else {
                lemma_vinsert_props(vis, e);
                assert(vis2 == vinsert_spec(vis, e));
                if !vcontains(vis, e.0) {
                    // a new settlement
                    assert forall|kk: Seq<char>| vcontains(vis, kk) implies vcontains(vis2, kk) by {
                        let a = vidx(vis, kk);
                        assert(vis2[a].0 == kk);
                    }
                    assert(ids.contains(e.0)) by {
                        let w = g.idx_of(e.0);
                        assert(g.nodes@[w].id@ == e.0);
                        assert(ids[w] == e.0);
                    }
                    lemma_unsettled_strict(ids, vis, vis2, e.0);
                } else {
                    // an overwrite that cannot worsen the record
                    assert(vdist(vis, e.0) >= e.2);
                    let p = vidx(vis, e.0);
                    assert(vis2 == vis.update(p, e));
                    assert(vis[p].2 == vdist(vis, e.0));
                    assert forall|kk: Seq<char>| vcontains(vis, kk) implies vcontains(vis2, kk) by {
                        if kk != e.0 {
                        } else {
                        }
                    }
                    assert forall|kk: Seq<char>| vcontains(vis2, kk) implies vcontains(vis, kk) by {
                        if kk != e.0 {
                        } else {
                        }
                    }
                    lemma_unsettled_mono(ids, vis, vis2);
                    lemma_unsettled_mono(ids, vis2, vis);
                    assert(unsettled_count(ids, vis2) == unsettled_count(ids, vis));
                    lemma_settled_sum_update(vis, p, e);
                    if vdist(vis, e.0) > e.2 {
                        assert(settled_sum(vis2) < settled_sum(vis));
                    } else {
                        // an equal overwrite: the popped entry was an
                        // equal entry, and no classification changes
                        assert(settled_sum(vis2) == settled_sum(vis));
                        assert(equal_entry(vis, e));
                        assert(vdist(vis2, e.0) == e.2 && vdist(vis, e.0) == e.2);
                        assert forall|i: int|
                            0 <= i < q2.len() implies equal_entry(vis, #[trigger] q2[i])
                            == equal_entry(vis2, q2[i]) by {
                            let kk = q2[i].0;
                            if kk == e.0 {
                                assert(vdist(vis2, kk) == vdist(vis, kk));
                            } else {
                                assert(vcontains(vis2, kk) == vcontains(vis, kk));
                                if vcontains(vis, kk) {
                                    assert(vdist(vis2, kk) == vdist(vis, kk));
                                }
                            }
                        }
                        lemma_equal_count_pointwise(q2, vis, vis2);
                        lemma_equal_count_remove(q, vis, mi);
                        assert(equal_count(q2, vis2) == equal_count(q, vis) - 1);
                    }
                }
            }
        },
        State::Push => {
            let cur = spre.current@;
            let exp = dijk_expand(edge_views(g.node_of(cur)), vis, cur, vdist(vis, cur));
            assert(vis2 == vis);
            assert(q2 =~= q + exp);
            lemma_dijk_expand_elems(edge_views(g.node_of(cur)), vis, cur, vdist(vis, cur));
            assert forall|i: int| 0 <= i < exp.len() implies !equal_entry(vis, #[trigger] exp[i])
                by {
                assert(!(vcontains(vis, exp[i].0) && vdist(vis, exp[i].0) <= exp[i].2));
            }
            lemma_equal_count_zero(exp, vis);
            lemma_equal_count_concat(q, exp, vis);
            assert(equal_count(q2, vis2) == equal_count(q, vis));
        },
    }
}

/// The layered measure strictly drops from `spre` to `s`.
pub open spec fn lex_lower(spre: ShortestPath<'_>, s: ShortestPath<'_>) -> bool {
    let g = *spre.graph;
    let ids = g.ids();
    let m1p = unsettled_count(ids, qv(spre.visited@));
    let m1 = unsettled_count(ids, qv(s.visited@));
    let m2p = settled_sum(qv(spre.visited@));
    let m2 = settled_sum(qv(s.visited@));
    let m3p = equal_count(qv(spre.queue@), qv(spre.visited@));
    let m3 = equal_count(qv(s.queue@), qv(s.visited@));
    let m4p = state_rank(spre.state);
    let m4 = state_rank(s.state);
    ||| m1 < m1p
    ||| (m1 == m1p && m2 < m2p)
    ||| (m1 == m1p && m2 == m2p && m3 < m3p)
    ||| (m1 == m1p && m2 == m2p && m3 == m3p && m4 < m4p)
    ||| (m1 == m1p && m2 == m2p && m3 == m3p && m4 == m4p && s.queue@.len() < spre.queue@.len())
}

/// One recorded edge out of a settled node is relaxed: the neighbor is
/// settled at no more than the distance through this node, or a frontier
/// entry at no more than that distance is waiting.
pub open spec fn edge_relaxed(
    g: Graph,
    vis: Seq<(Seq<char>, Seq<char>, u64)>,
    q: Seq<(Seq<char>, Seq<char>, u64)>,
    x: Seq<char>,
    j: int,
) -> bool {
    let y = g.node_of(x).edges@[j].0@;
    let w = g.node_of(x).edges@[j].1;
    ||| (vcontains(vis, y) && vdist(vis, y) <= vdist(vis, x).saturating_add(w))
    ||| (exists|i: int|
        0 <= i < q.len() && (#[trigger] q[i]).0 == y && q[i].2 <= vdist(vis, x).saturating_add(w))
}

/// Every recorded edge out of `x` is relaxed.
pub open spec fn node_relaxed(
    g: Graph,
    vis: Seq<(Seq<char>, Seq<char>, u64)>,
    q: Seq<(Seq<char>, Seq<char>, u64)>,
    x: Seq<char>,
) -> bool {
    forall|j: int|
        0 <= j < g.node_of(x).edges@.len() ==> #[trigger] edge_relaxed(g, vis, q, x, j)
}

/// Every settled node's edges are relaxed, except possibly the exempt
/// one (the node whose expansion is still pending).
pub open spec fn frontier_relaxed(
    g: Graph,
    vis: Seq<(Seq<char>, Seq<char>, u64)>,
    q: Seq<(Seq<char>, Seq<char>, u64)>,
    exempt: Option<Seq<char>>,
) -> bool {
    forall|xi: int|
        0 <= xi < vis.len() ==> Some((#[trigger] vis[xi]).0) == exempt || node_relaxed(
            g,
            vis,
            q,
            vis[xi].0,
        )
}

/// Every settled record is optimal: no route from the start to a settled
/// id weighs less than its recorded distance.
pub open spec fn settled_optimal(
    g: Graph,
    start: Seq<char>,
    vis: Seq<(Seq<char>, Seq<char>, u64)>,
) -> bool {
    forall|p: Seq<Seq<char>>|
        wf_path(g, p) && p[0] == start && vcontains(vis, p[p.len() - 1]) ==> vdist(
            vis,
            p[p.len() - 1],
        ) <= #[trigger] path_weight(g, p)
}

/// The start is settled, or its seed entry still waits with distance
/// zero.
pub open spec fn start_covered(
    start: Seq<char>,
    vis: Seq<(Seq<char>, Seq<char>, u64)>,
    q: Seq<(Seq<char>, Seq<char>, u64)>,
) -> bool {
    vcontains(vis, start) || exists|i: int|
        0 <= i < q.len() && (#[trigger] q[i]).0 == start && q[i].2 == 0
}

/// A route node's frontier coverage: some entry for it waits at no more
/// than the weight of the route's prefix ending there.
pub open spec fn covered_at(
    g: Graph,
    q: Seq<(Seq<char>, Seq<char>, u64)>,
    p: Seq<Seq<char>>,
    j: int,
) -> bool {
    exists|i: int|
        0 <= i < q.len() && (#[trigger] q[i]).0 == p[j] && q[i].2 <= path_weight(g, p.take(j + 1))
}

/// The optimality bookkeeping the driver carries alongside the machine
/// invariant: settled records are optimal, the start is covered, and the
/// settled frontier is relaxed (all of it in `Pop`, all but the pending
/// node in `Push`).
pub open spec fn opt_inv(s: ShortestPath<'_>) -> bool {
    let g = *s.graph;
    let vis = qv(s.visited@);
    let q = qv(s.queue@);
    &&& settled_optimal(g, s.start@, vis)
    &&& start_covered(s.start@, vis, q)
    &&& match s.state {
        State::Pop => frontier_relaxed(g, vis, q, None),
        State::Push => frontier_relaxed(g, vis, q, Some(s.current@)),
        State::Done(st) => st == Status::NotFound ==> frontier_relaxed(g, vis, q, None),
    }
}

/// Every route from the start is covered: some node along it has a
/// frontier entry at no more than the prefix weight, or its endpoint is
/// already settled at no more than its total weight.
proof fn lemma_path_covered(
    g: Graph,
    start: Seq<char>,
    vis: Seq<(Seq<char>, Seq<char>, u64)>,
    q: Seq<(Seq<char>, Seq<char>, u64)>,
    p: Seq<Seq<char>>,
)
    requires
        g.wf(),
        frontier_relaxed(g, vis, q, None),
        start_covered(start, vis, q),
        settled_optimal(g, start, vis),
        vunique(vis),
        wf_path(g, p),
        p[0] == start,
    ensures
        (exists|j: int| 0 <= j < p.len() && #[trigger] covered_at(g, q, p, j)) || (vcontains(
            vis,
            p[p.len() - 1],
        ) && vdist(vis, p[p.len() - 1]) <= path_weight(g, p)),
    decreases p.len(),
{
    let n = p.len() as int;
    if n == 1 {
        if vcontains(vis, start) {
            assert(path_weight(g, p) == 0);
            assert(vdist(vis, p[p.len() - 1]) <= path_weight(g, p));
        } else {
            let i = choose|i: int| 0 <= i < q.len() && (#[trigger] q[i]).0 == start && q[i].2 == 0;
            assert(p.take(1) =~= p);
            assert(covered_at(g, q, p, 0));
        }
    } else {
        lemma_wf_path_drop_last(g, p);
        let p2 = p.drop_last();
        lemma_path_covered(g, start, vis, q, p2);
        if exists|j: int| 0 <= j < p2.len() && #[trigger] covered_at(g, q, p2, j) {
            let j = choose|j: int| 0 <= j < p2.len() && #[trigger] covered_at(g, q, p2, j);
            let i = choose|i: int|
                0 <= i < q.len() && (#[trigger] q[i]).0 == p2[j] && q[i].2 <= path_weight(
                    g,
                    p2.take(j + 1),
                );
            assert(p.take(j + 1) =~= p2.take(j + 1));
            assert(p[j] == p2[j]);
            assert(covered_at(g, q, p, j));
        } else {
            let x = p[n - 2];
            let y = p[n - 1];
            assert(vcontains(vis, x) && vdist(vis, x) <= path_weight(g, p2));
            let node = g.node_of(x);
            assert(node.edge_lookup(y) is Some);
            assert(node.has_edge(y));
            let ej = node.edge_idx(y);
            assert(0 <= ej < node.edges@.len() && node.edges@[ej].0@ == y);
            let w = node.edges@[ej].1;
            assert(node.edge_lookup(y) == Some(w));
            let xi = vidx(vis, x);
            assert(vis[xi].0 == x);
            assert(node_relaxed(g, vis, q, x));
            assert(edge_relaxed(g, vis, q, x, ej));
            let cand = vdist(vis, x).saturating_add(w);
            assert(path_weight(g, p) == path_weight(g, p2).saturating_add(w));
            lemma_sat_mono(vdist(vis, x), path_weight(g, p2), w);
            assert(cand <= path_weight(g, p));
            if vcontains(vis, y) && vdist(vis, y) <= cand {
                assert(vdist(vis, p[p.len() - 1]) <= path_weight(g, p));
            } else {
                let i = choose|i: int|
                    0 <= i < q.len() && (#[trigger] q[i]).0 == y && q[i].2 <= cand;
                assert(p.take(n) =~= p);
                assert(covered_at(g, q, p, n - 1));
            }
        }
    }
}

/// The cut argument: when the first-minimum entry is popped and is not
/// stale, its distance is no more than the weight of any route from the
/// start to its id.
proof fn lemma_dijk_cut(
    g: Graph,
    start: Seq<char>,
    vis: Seq<(Seq<char>, Seq<char>, u64)>,
    q: Seq<(Seq<char>, Seq<char>, u64)>,
    mi: int,
    p: Seq<Seq<char>>,
)
    requires
        g.wf(),
        frontier_relaxed(g, vis, q, None),
        start_covered(start, vis, q),
        settled_optimal(g, start, vis),
        vunique(vis),
        is_first_min(q, mi),
        vcontains(vis, q[mi].0) ==> q[mi].2 <= vdist(vis, q[mi].0),
        wf_path(g, p),
        p[0] == start,
        p[p.len() - 1] == q[mi].0,
    ensures
        q[mi].2 <= path_weight(g, p),
{
    lemma_path_covered(g, start, vis, q, p);
    if exists|j: int| 0 <= j < p.len() && #[trigger] covered_at(g, q, p, j) {
        let j = choose|j: int| 0 <= j < p.len() && #[trigger] covered_at(g, q, p, j);
        let i = choose|i: int|
            0 <= i < q.len() && (#[trigger] q[i]).0 == p[j] && q[i].2 <= path_weight(
                g,
                p.take(j + 1),
            );
        assert(q[mi].2 <= q[i].2);
        lemma_path_weight_prefix(g, p, j + 1);
    } else {
        assert(vdist(vis, q[mi].0) <= path_weight(g, p));
    }
}

/// One step of the machine preserves the optimality bookkeeping.
#[verifier::rlimit(60)]
#[verifier::spinoff_prover]
pub proof fn lemma_opt_step(spre: ShortestPath<'_>, s: ShortestPath<'_>)
    requires
        spre.inv(),
        opt_inv(spre),
        !(spre.state is Done),
        s.graph == spre.graph,
        s.start == spre.start,
        s.dest@ == spre.dest@,
        match spre.state {
            State::Done(st) => s == spre,
            State::Pop => {
                if spre.queue@.len() == 0 {
                    s.state == State::Done(Status::NotFound) && s.queue@ == spre.queue@
                        && s.visited@ == spre.visited@
                } else {
                    let q = qv(spre.queue@);
                    let mi = first_min_idx(q);
                    let e = q[mi];
                    &&& is_first_min(q, mi)
                    &&& s.queue@ == spre.queue@.remove(mi)
                    &&& if e.0 == spre.dest@ {
                        s.state == State::Done(Status::Found) && qv(s.visited@) == vinsert_spec(
                            qv(spre.visited@),
                            e,
                        )
                    } else if vcontains(qv(spre.visited@), e.0) && vdist(qv(spre.visited@), e.0)
                        < e.2 {
                        s.state == State::Pop && s.visited@ == spre.visited@ && s.current@ == e.0
                    } else {
                        s.state == State::Push && qv(s.visited@) == vinsert_spec(
                            qv(spre.visited@),
                            e,
                        ) && s.current@ == e.0
                    }
                }
            },
            State::Push => {
                let cur = spre.current@;
                let vis = qv(spre.visited@);
                let exp = dijk_expand(
                    edge_views(spre.graph.node_of(cur)),
                    vis,
                    cur,
                    vdist(vis, cur),
                );
                &&& s.state == State::Pop
                &&& qv(s.queue@) == qv(spre.queue@) + exp
                &&& s.visited@ == spre.visited@
                &&& s.current@ == spre.current@
            },
        },
    ensures
        opt_inv(s),
{
    let g = *spre.graph;
    let start = spre.start@;
    let vis = qv(spre.visited@);
    let vis2 = qv(s.visited@);
    let q = qv(spre.queue@);
    let q2 = qv(s.queue@);
    match spre.state {
        State::Done(st) => {
        },
        State::Pop => {
            if spre.queue@.len() == 0 {
                assert(vis2 == vis && q2 == q);
            } else {
                let mi = first_min_idx(q);
                let e = q[mi];
                assert(q2 =~= q.remove(mi));
                assert(forall|i: int| 0 <= i < mi ==> q2[i] == q[i]);
                assert(forall|i: int| mi <= i < q2.len() ==> q2[i] == q[i + 1]);
                let stale = !(e.0 == spre.dest@) && vcontains(vis, e.0) && vdist(vis, e.0) < e.2;
                if stale {
                    assert(vis2 == vis);
                    lemma_opt_queue_shrinks(g, start, vis, q, mi);
                } else {
                    // a settlement: new id, or an overwrite that does not
                    // worsen the record
                    assert(vcontains(vis, e.0) ==> e.2 <= vdist(vis, e.0)) by {
                        if e.0 == spre.dest@ {
                            assert(!vcontains(vis, e.0));
                        }
                    }
                    assert(vis2 == vinsert_spec(vis, e));
                    lemma_vinsert_props(vis, e);
                    assert(settled_optimal(g, start, vis2)) by {
                        assert forall|p: Seq<Seq<char>>|
                            wf_path(g, p) && p[0] == start && vcontains(vis2, p[p.len() - 1])
                                implies vdist(vis2, p[p.len() - 1]) <= #[trigger] path_weight(
                                g,
                                p,
                            ) by {
                            if p[p.len() - 1] == e.0 {
                                lemma_dijk_cut(g, start, vis, q, mi, p);
                                assert(vdist(vis2, e.0) == e.2);
                            } else {
                                assert(vcontains(vis, p[p.len() - 1]));
                                assert(vdist(vis2, p[p.len() - 1]) == vdist(vis, p[p.len() - 1]));
                            }
                        }
                    }
                    assert(start_covered(start, vis2, q2)) by {
                        if vcontains(vis, start) {
                            assert(vcontains(vis2, start)) by {
                                if start == e.0 {
                                } else {
                                }
                            }
                        } else {
                            let i = choose|i: int|
                                0 <= i < q.len() && (#[trigger] q[i]).0 == start && q[i].2 == 0;
                            if i == mi {
                                assert(e.0 == start);
                                assert(vcontains(vis2, start));
                            } else {
                                let ip = if i < mi {
                                    i
                                } else {
                                    i - 1
                                };
                                assert(q2[ip] == q[i]);
                            }
                        }
                    }
                    if s.state == State::Push {
                        lemma_opt_settle_relaxed(g, start, vis, q, mi, q2, vis2, e.0);
                    }
                }
            }
        },
        State::Push => {
            let cur = spre.current@;
            let exp = dijk_expand(edge_views(g.node_of(cur)), vis, cur, vdist(vis, cur));
            assert(vis2 == vis);
            assert(q2 =~= q + exp);
            assert(forall|i: int| 0 <= i < q.len() ==> q2[i] == q[i]);
            assert(forall|i: int| 0 <= i < exp.len() ==> q2[q.len() + i] == exp[i]);
            assert(start_covered(start, vis2, q2)) by {
                if !vcontains(vis, start) {
                    let i = choose|i: int|
                        0 <= i < q.len() && (#[trigger] q[i]).0 == start && q[i].2 == 0;
                    assert(q2[i] == q[i]);
                }
            }
            lemma_dijk_expand_covers(edge_views(g.node_of(cur)), vis, cur, vdist(vis, cur));
            assert(frontier_relaxed(g, vis2, q2, None)) by {
                assert forall|xi: int| 0 <= xi < vis2.len() implies Some(
                    (#[trigger] vis2[xi]).0,
                ) == None::<Seq<char>> || node_relaxed(g, vis2, q2, vis2[xi].0) by {
                    let x = vis[xi].0;
                    if x == cur {
                        assert(node_relaxed(g, vis, q2, cur)) by {
                            assert forall|j: int|
                                0 <= j < g.node_of(cur).edges@.len() implies #[trigger] edge_relaxed(
                                g,
                                vis,
                                q2,
                                cur,
                                j,
                            ) by {
                                let evs = edge_views(g.node_of(cur));
                                assert(evs[j] == (
                                    g.node_of(cur).edges@[j].0@,
                                    g.node_of(cur).edges@[j].1,
                                ));
                                let y = evs[j].0;
                                let w = evs[j].1;
                                let cand = vdist(vis, cur).saturating_add(w);
                                if vcontains(vis, y) && vdist(vis, y) <= cand {
                                } else {
                                    let t = choose|t: int|
                                        0 <= t < exp.len() && #[trigger] exp[t] == (y, cur, cand);
                                    assert(q2[q.len() + t] == (y, cur, cand));
                                }
                            }
                        }
                    } else {
                        assert(node_relaxed(g, vis, q, x));
                        assert(node_relaxed(g, vis, q2, x)) by {
                            assert forall|j: int|
                                0 <= j < g.node_of(x).edges@.len() implies #[trigger] edge_relaxed(
                                g,
                                vis,
                                q2,
                                x,
                                j,
                            ) by {
                                assert(edge_relaxed(g, vis, q, x, j));
                                let y = g.node_of(x).edges@[j].0@;
                                let w = g.node_of(x).edges@[j].1;
                                if !(vcontains(vis, y) && vdist(vis, y) <= vdist(
                                    vis,
                                    x,
                                ).saturating_add(w)) {
                                    let i = choose|i: int|
                                        0 <= i < q.len() && (#[trigger] q[i]).0 == y && q[i].2
                                            <= vdist(vis, x).saturating_add(w);
                                    assert(q2[i] == q[i]);
                                }
                            }
                        }
                    }
                }
            }
        },
    }
}

/// After a stale pop the frontier keeps every relaxation witness.
proof fn lemma_opt_queue_shrinks(
    g: Graph,
    start: Seq<char>,
    vis: Seq<(Seq<char>, Seq<char>, u64)>,
    q: Seq<(Seq<char>, Seq<char>, u64)>,
    mi: int,
)
    requires
        g.wf(),
        vunique(vis),
        frontier_relaxed(g, vis, q, None),
        start_covered(start, vis, q),
        0 <= mi < q.len(),
        vcontains(vis, q[mi].0),
        vdist(vis, q[mi].0) < q[mi].2,
    ensures
        frontier_relaxed(g, vis, q.remove(mi), None),
        start_covered(start, vis, q.remove(mi)),
{
    let q2 = q.remove(mi);
    assert(forall|i: int| 0 <= i < mi ==> q2[i] == q[i]);
    assert(forall|i: int| mi <= i < q2.len() ==> q2[i] == q[i + 1]);
    assert(start_covered(start, vis, q2)) by {
        if !vcontains(vis, start) {
            let i = choose|i: int| 0 <= i < q.len() && (#[trigger] q[i]).0 == start && q[i].2 == 0;
            assert(i != mi) by {
                if i == mi {
                    assert(vdist(vis, q[mi].0) < 0);
                }
            }
            let ip = if i < mi {
                i
            } else {
                i - 1
            };
            assert(q2[ip] == q[i]);
        }
    }
    assert forall|xi: int| 0 <= xi < vis.len() implies Some((#[trigger] vis[xi]).0) == None::<
        Seq<char>,
    > || node_relaxed(g, vis, q2, vis[xi].0) by {
        let x = vis[xi].0;
        assert(node_relaxed(g, vis, q, x));
        assert forall|j: int| 0 <= j < g.node_of(x).edges@.len() implies #[trigger] edge_relaxed(
            g,
            vis,
            q2,
            x,
            j,
        ) by {
            assert(edge_relaxed(g, vis, q, x, j));
            let y = g.node_of(x).edges@[j].0@;
            let w = g.node_of(x).edges@[j].1;
            let cand = vdist(vis, x).saturating_add(w);
            if !(vcontains(vis, y) && vdist(vis, y) <= cand) {
                let i = choose|i: int|
                    0 <= i < q.len() && (#[trigger] q[i]).0 == y && q[i].2 <= cand;
                if i == mi {
                    // the removed entry was stale: its id is settled below it
                    assert(vdist(vis, y) < q[mi].2);
                    assert(vcontains(vis, y) && vdist(vis, y) <= cand);
                    assert(false);
                } else {
                    let ip = if i < mi {
                        i
                    } else {
                        i - 1
                    };
                    assert(q2[ip] == q[i]);
                }
            }
        }
    }
}

/// After settling the popped entry the frontier stays relaxed, with the
/// settled id itself exempt until its expansion runs.
proof fn lemma_opt_settle_relaxed(
    g: Graph,
    start: Seq<char>,
    vis: Seq<(Seq<char>, Seq<char>, u64)>,
    q: Seq<(Seq<char>, Seq<char>, u64)>,
    mi: int,
    q2: Seq<(Seq<char>, Seq<char>, u64)>,
    vis2: Seq<(Seq<char>, Seq<char>, u64)>,
    cur: Seq<char>,
)
    requires
        g.wf(),
        vunique(vis),
        frontier_relaxed(g, vis, q, None),
        0 <= mi < q.len(),
        cur == q[mi].0,
        is_first_min(q, mi),
        vcontains(vis, cur) ==> q[mi].2 <= vdist(vis, cur),
        q2 == q.remove(mi),
        vis2 == vinsert_spec(vis, q[mi]),
    ensures
        frontier_relaxed(g, vis2, q2, Some(cur)),
{
    let e = q[mi];
    lemma_vinsert_props(vis, e);
    assert(forall|i: int| 0 <= i < mi ==> q2[i] == q[i]);
    assert(forall|i: int| mi <= i < q2.len() ==> q2[i] == q[i + 1]);
    assert forall|xi: int| 0 <= xi < vis2.len() implies Some((#[trigger] vis2[xi]).0) == Some(
        cur,
    ) || node_relaxed(g, vis2, q2, vis2[xi].0) by {
        let x = vis2[xi].0;
        if x == cur {
        } else {
            assert(vcontains(vis2, x)) by {
                assert(vis2[xi].0 == x);
            }
            assert(vcontains(vis, x)) by {
                if !vcontains(vis, x) {
                    // every id of vis2 other than the settled one was
                    // already a key of vis
                    if vcontains(vis, e.0) {
                        assert(vis2 == vis.update(vidx(vis, e.0), e));
                        assert(vis[xi].0 == x);
                    } else {
                        assert(vis2 == vis.push(e));
                        assert(xi < vis.len());
                        assert(vis[xi].0 == x);
                    }
                }
            }
            assert(vdist(vis2, x) == vdist(vis, x));
            let oxi = vidx(vis, x);
            assert(vis[oxi].0 == x);
            assert(node_relaxed(g, vis, q, x));
            assert forall|j: int|
                0 <= j < g.node_of(x).edges@.len() implies #[trigger] edge_relaxed(
                g,
                vis2,
                q2,
                x,
                j,
            ) by {
                assert(edge_relaxed(g, vis, q, x, j));
                let y = g.node_of(x).edges@[j].0@;
                let w = g.node_of(x).edges@[j].1;
                let cand = vdist(vis, x).saturating_add(w);
                assert(vdist(vis2, x).saturating_add(w) == cand);
                if vcontains(vis, y) && vdist(vis, y) <= cand {
                    if y == e.0 {
                        assert(vdist(vis2, y) == e.2);
                        assert(e.2 <= vdist(vis, y));
                    } else {
                        assert(vdist(vis2, y) == vdist(vis, y));
                    }
                    assert(vcontains(vis2, y) && vdist(vis2, y) <= cand);
                } else {
                    let i = choose|i: int|
                        0 <= i < q.len() && (#[trigger] q[i]).0 == y && q[i].2 <= cand;
                    if i == mi {
                        // the witness entry is the one being settled
                        assert(y == e.0 && q[i].2 == e.2);
                        assert(vdist(vis2, y) == e.2);
                        assert(vcontains(vis2, y) && vdist(vis2, y) <= cand);
                    } else {
                        let ip = if i < mi {
                            i
                        } else {
                            i - 1
                        };
                        assert(q2[ip] == q[i]);
                    }
                }
            }
        }
    }
}

/// Each neighbor of the expanded node is either already settled at no
/// more than its candidate distance, or contributed its candidate entry.
proof fn lemma_dijk_expand_covers(
    edges: Seq<(Seq<char>, u64)>,
    vis: Seq<(Seq<char>, Seq<char>, u64)>,
    cur: Seq<char>,
    base: u64,
)
    ensures
        forall|j: int|
            0 <= j < edges.len() ==> (vcontains(vis, (#[trigger] edges[j]).0) && vdist(
                vis,
                edges[j].0,
            ) <= base.saturating_add(edges[j].1)) || exists|t: int|
                0 <= t < dijk_expand(edges, vis, cur, base).len() && #[trigger] dijk_expand(
                    edges,
                    vis,
                    cur,
                    base,
                )[t] == (edges[j].0, cur, base.saturating_add(edges[j].1)),
    decreases edges.len(),
{
    if edges.len() > 0 {
        lemma_dijk_expand_covers(edges.skip(1), vis, cur, base);
        let head = dijk_expand_one(vis, cur, base, edges[0]);
        let rest = dijk_expand(edges.skip(1), vis, cur, base);
        let whole = dijk_expand(edges, vis, cur, base);
        assert forall|j: int| 0 <= j < edges.len() implies (vcontains(
            vis,
            (#[trigger] edges[j]).0,
        ) && vdist(vis, edges[j].0) <= base.saturating_add(edges[j].1)) || exists|t: int|
            0 <= t < whole.len() && #[trigger] whole[t] == (
            edges[j].0,
            cur,
            base.saturating_add(edges[j].1),
            ) by {
            if j == 0 {
                if !(vcontains(vis, edges[0].0) && vdist(vis, edges[0].0) <= base.saturating_add(
                    edges[0].1,
                )) {
                    assert(whole[0] == (edges[0].0, cur, base.saturating_add(edges[0].1)));
                }
            } else {
                assert(edges.skip(1)[j - 1] == edges[j]);
                if !(vcontains(vis, edges[j].0) && vdist(vis, edges[j].0) <= base.saturating_add(
                    edges[j].1,
                )) {
                    let t = choose|t: int|
                        0 <= t < rest.len() && #[trigger] rest[t] == (
                        edges[j].0,
                        cur,
                        base.saturating_add(edges[j].1),
                        );
                    assert(whole[head.len() + t] == rest[t]);
                }
            }
        }
    }
}

/// Monotonicity bookkeeping: settled distances never exceed frontier
/// distances, run non-decreasing in settlement order (and top out at the
/// pending node), a queued entry for an already settled id names an
/// earlier-settled predecessor, and every settled record's predecessor
/// was settled earlier. The last fact grounds the predecessor walk.
pub open spec fn mono_inv(s: ShortestPath<'_>) -> bool {
    let m = qv(s.visited@);
    let q = qv(s.queue@);
    &&& forall|a: int, qi: int|
        0 <= a < m.len() && 0 <= qi < q.len() ==> (#[trigger] m[a]).2 <= (#[trigger] q[qi]).2
    &&& forall|a: int, b: int|
        0 <= a <= b < m.len() ==> (#[trigger] m[a]).2 <= (#[trigger] m[b]).2
    &&& s.state == State::Push ==> forall|a: int|
        0 <= a < m.len() ==> (#[trigger] m[a]).2 <= vdist(m, s.current@)
    &&& forall|qi: int|
        0 <= qi < q.len() && vcontains(m, (#[trigger] q[qi]).0) ==> vidx(m, q[qi].1) < vidx(
            m,
            q[qi].0,
        )
    &&& forall|i: int|
        0 <= i < m.len() && (#[trigger] m[i]).1 != sentinel() ==> vidx(m, m[i].1) < i
}

/// One step of the machine preserves the monotonicity bookkeeping.
#[verifier::rlimit(60)]
#[verifier::spinoff_prover]
pub proof fn lemma_mono_step(spre: ShortestPath<'_>, s: ShortestPath<'_>)
    requires
        spre.inv(),
        mono_inv(spre),
        !(spre.state is Done),
        s.graph == spre.graph,
        s.start == spre.start,
        s.dest@ == spre.dest@,
        match spre.state {
            State::Done(st) => s == spre,
            State::Pop => {
                if spre.queue@.len() == 0 {
                    s.state == State::Done(Status::NotFound) && s.queue@ == spre.queue@
                        && s.visited@ == spre.visited@
                } else {
                    let q = qv(spre.queue@);
                    let mi = first_min_idx(q);
                    let e = q[mi];
                    &&& is_first_min(q, mi)
                    &&& s.queue@ == spre.queue@.remove(mi)
                    &&& if e.0 == spre.dest@ {
                        s.state == State::Done(Status::Found) && qv(s.visited@) == vinsert_spec(
                            qv(spre.visited@),
                            e,
                        )
                    } else if vcontains(qv(spre.visited@), e.0) && vdist(qv(spre.visited@), e.0)
                        < e.2 {
                        s.state == State::Pop && s.visited@ == spre.visited@ && s.current@ == e.0
                    } else {
                        s.state == State::Push && qv(s.visited@) == vinsert_spec(
                            qv(spre.visited@),
                            e,
                        ) && s.current@ == e.0
                    }
                }
            },
            State::Push => {
                let cur = spre.current@;
                let vis = qv(spre.visited@);
                let exp = dijk_expand(
                    edge_views(spre.graph.node_of(cur)),
                    vis,
                    cur,
                    vdist(vis, cur),
                );
                &&& s.state == State::Pop
                &&& qv(s.queue@) == qv(spre.queue@) + exp
                &&& s.visited@ == spre.visited@
                &&& s.current@ == spre.current@
            },
        },
    ensures
        mono_inv(s),
{
    let g = *spre.graph;
    let m = qv(spre.visited@);
    let m2 = qv(s.visited@);
    let q = qv(spre.queue@);
    let q2 = qv(s.queue@);
    match spre.state {
        State::Done(st) => {
        },
        State::Pop => {
            if spre.queue@.len() == 0 {
                assert(m2 == m && q2 == q);
            } else {
                let mi = first_min_idx(q);
                let e = q[mi];
                assert(q2 =~= q.remove(mi));
                assert(forall|i: int| 0 <= i < mi ==> q2[i] == q[i]);
                assert(forall|i: int| mi <= i < q2.len() ==> q2[i] == q[i + 1]);
                let stale = !(e.0 == spre.dest@) && vcontains(m, e.0) && vdist(m, e.0) < e.2;
                if stale {
                    assert(m2 == m);
                } else {
                    assert(vcontains(m, e.0) ==> e.2 <= vdist(m, e.0)) by {
                        if e.0 == spre.dest@ {
                            assert(!vcontains(m, e.0));
                        }
                    }
                    lemma_vinsert_props(m, e);
                    assert(m2 == vinsert_spec(m, e));
                    if vcontains(m, e.0) {
                        // an equal overwrite: the record's distance is
                        // already e.2, only its predecessor changes
                        let p = vidx(m, e.0);
                        assert(dijk_qentry_ok(g, m, q.len() as int, spre.start@, e));
                        assert(e.2 >= vdist(m, e.1));
                        assert(m[p].2 <= e.2);
                        assert(m[p].2 == vdist(m, e.0));
                        assert(m[p].2 == e.2);
                        assert(m2 == m.update(p, e));
                        assert(forall|i: int| 0 <= i < m2.len() && i != p ==> m2[i] == m[i]);
                        assert(forall|i: int| 0 <= i < m2.len() ==> (#[trigger] m2[i]).2 == m[i].2);
                        assert(forall|i: int|
                            0 <= i < m2.len() ==> (#[trigger] m2[i]).0 == m[i].0);
                        assert forall|a: int, qi: int|
                            0 <= a < m2.len() && 0 <= qi < q2.len() implies (#[trigger] m2[a]).2
                            <= (#[trigger] q2[qi]).2 by {
                            let ip = if qi < mi {
                                qi
                            } else {
                                qi + 1
                            };
                            assert(q2[qi] == q[ip]);
                        }
                        // the settled entry for this id keeps its index,
                        // and the new predecessor was settled earlier by
                        // the queue-entry ordering fact
                        assert forall|i: int|
                            0 <= i < m2.len() && (#[trigger] m2[i]).1 != sentinel() implies vidx(
                            m2,
                            m2[i].1,
                        ) < i by {
                            if i == p {
                                assert(vidx(m, q[mi].1) < vidx(m, q[mi].0));
                                assert(vcontains(m, e.1));
                                let ay = vidx(m, e.1);
                                assert(m2[ay].0 == m[ay].0);
                                assert(vcontains(m2, e.1));
                                lemma_vidx_unique(m2, ay, vidx(m2, e.1));
                            } else {
                                assert(m2[i] == m[i]);
                                assert(dijk_ventry_ok(g, m, spre.start@, i));
                                assert(i != 0);
                                assert(vcontains(m, m[i].1));
                                assert(vidx(m, m[i].1) < i);
                                let ay = vidx(m, m[i].1);
                                assert(m2[ay].0 == m[ay].0);
                                assert(vcontains(m2, m[i].1));
                                lemma_vidx_unique(m2, ay, vidx(m2, m[i].1));
                            }
                        }
                        assert forall|qi: int|
                            0 <= qi < q2.len() && vcontains(m2, (#[trigger] q2[qi]).0) implies vidx(
                            m2,
                            q2[qi].1,
                        ) < vidx(m2, q2[qi].0) by {
                            let ip = if qi < mi {
                                qi
                            } else {
                                qi + 1
                            };
                            assert(q2[qi] == q[ip]);
                            let x = q[ip].0;
                            let y = q[ip].1;
                            assert(vcontains(m, x)) by {
                                let a = vidx(m2, x);
                                assert(m2[a].0 == m[a].0);
                            }
                            assert(vidx(m, y) < vidx(m, x));
                            assert(vcontains(m, y)) by {
                                assert(dijk_qentry_ok(g, m, q.len() as int, spre.start@, q[ip]));
                                if q[ip].1 == sentinel() {
                                    assert(false);
                                }
                            }
                            assert(vidx(m2, y) == vidx(m, y) && vidx(m2, x) == vidx(m, x)) by {
                                assert(m2[vidx(m, y)].0 == m[vidx(m, y)].0);
                                assert(m2[vidx(m, x)].0 == m[vidx(m, x)].0);
                                lemma_vidx_unique(m2, vidx(m, y), vidx(m2, y));
                                lemma_vidx_unique(m2, vidx(m, x), vidx(m2, x));
                            }
                        }
                        if s.state == State::Push {
                            assert forall|a: int| 0 <= a < m2.len() implies (#[trigger] m2[a]).2
                                <= vdist(m2, s.current@) by {
                                assert(vdist(m2, e.0) == e.2);
                                assert(m2[a].2 == m[a].2);
                                assert(m[a].2 <= q[mi].2);
                            }
                        }
                    } else {
                        // a fresh settlement at the end of the order
                        assert(m2 == m.push(e));
                        assert(forall|i: int| 0 <= i < m.len() ==> m2[i] == m[i]);
                        assert(m2[m.len() as int] == e);
                        assert forall|a: int, qi: int|
                            0 <= a < m2.len() && 0 <= qi < q2.len() implies (#[trigger] m2[a]).2
                            <= (#[trigger] q2[qi]).2 by {
                            let ip = if qi < mi {
                                qi
                            } else {
                                qi + 1
                            };
                            assert(q2[qi] == q[ip]);
                            if a < m.len() {
                                assert(m[a].2 <= q[ip].2);
                            } else {
                                assert(m2[a].2 == e.2);
                                assert(e.2 <= q[ip].2);
                            }
                        }
                        assert forall|a: int, b: int| 0 <= a <= b < m2.len() implies (
                        #[trigger] m2[a]).2 <= (#[trigger] m2[b]).2 by {
                            if b == m.len() {
                                if a < m.len() {
                                    assert(m[a].2 <= q[mi].2);
                                }
                            }
                        }
                        assert forall|i: int|
                            0 <= i < m2.len() && (#[trigger] m2[i]).1 != sentinel() implies vidx(
                            m2,
                            m2[i].1,
                        ) < i by {
                            if i < m.len() {
                                assert(m2[i] == m[i]);
                                assert(dijk_ventry_ok(g, m, spre.start@, i));
                                assert(i != 0);
                                assert(vcontains(m, m[i].1));
                                assert(vidx(m, m[i].1) < i);
                                assert(m[i].1 != e.0) by {
                                    if m[i].1 == e.0 {
                                        assert(vcontains(m, e.0));
                                    }
                                }
                                let ay = vidx(m, m[i].1);
                                assert(m2[ay].0 == m[ay].0);
                                assert(vcontains(m2, m[i].1));
                                lemma_vidx_unique(m2, ay, vidx(m2, m[i].1));
                            } else {
                                assert(m2[i] == e);
                                assert(dijk_qentry_ok(g, m, q.len() as int, spre.start@, e));
                                assert(vcontains(m, e.1));
                                assert(e.1 != e.0) by {
                                    if e.1 == e.0 {
                                        assert(vcontains(m, e.0));
                                    }
                                }
                                assert(vidx(m2, e.1) == vidx(m, e.1));
                                assert(vidx(m, e.1) < m.len());
                            }
                        }
                        assert forall|qi: int|
                            0 <= qi < q2.len() && vcontains(m2, (#[trigger] q2[qi]).0) implies vidx(
                            m2,
                            q2[qi].1,
                        ) < vidx(m2, q2[qi].0) by {
                            let ip = if qi < mi {
                                qi
                            } else {
                                qi + 1
                            };
                            assert(q2[qi] == q[ip]);
                            let x = q[ip].0;
                            let y = q[ip].1;
                            assert(dijk_qentry_ok(g, m, q.len() as int, spre.start@, q[ip]));
                            if x == e.0 {
                                assert(q[ip].1 != sentinel()) by {
                                    if q[ip].1 == sentinel() {
                                        assert(q.len() == 1);
                                        assert(false);
                                    }
                                }
                                assert(vcontains(m, y));
                                assert(y != e.0) by {
                                    if y == e.0 {
                                        assert(vcontains(m, e.0));
                                    }
                                }
                                assert(vidx(m2, y) == vidx(m, y) && vidx(m, y) < m.len());
                                assert(vidx(m2, e.0) == m.len());
                            } else {
                                assert(vcontains(m, x)) by {
                                    let a = vidx(m2, x);
                                    assert(a < m.len());
                                    assert(m[a].0 == x);
                                }
                                assert(vidx(m, y) < vidx(m, x));
                                assert(vcontains(m, y)) by {
                                    if q[ip].1 == sentinel() {
                                        assert(false);
                                    }
                                }
                                assert(y != e.0 && x != e.0);
                                assert(vidx(m2, y) == vidx(m, y) && vidx(m2, x) == vidx(m, x));
                            }
                        }
                        if s.state == State::Push {
                            assert forall|a: int| 0 <= a < m2.len() implies (#[trigger] m2[a]).2
                                <= vdist(m2, s.current@) by {
                                assert(vdist(m2, e.0) == e.2);
                                if a < m.len() {
                                    assert(m[a].2 <= q[mi].2);
                                }
                            }
                        }
                    }
                }
            }
        },
        State::Push => {
            let cur = spre.current@;
            let exp = dijk_expand(edge_views(g.node_of(cur)), m, cur, vdist(m, cur));
            assert(m2 == m);
            assert(q2 =~= q + exp);
            assert(forall|i: int| 0 <= i < q.len() ==> q2[i] == q[i]);
            assert(forall|i: int| 0 <= i < exp.len() ==> q2[q.len() + i] == exp[i]);
            lemma_dijk_expand_shape(edge_views(g.node_of(cur)), m, cur, vdist(m, cur));
            assert forall|a: int, qi: int|
                0 <= a < m2.len() && 0 <= qi < q2.len() implies (#[trigger] m2[a]).2 <= (
            #[trigger] q2[qi]).2 by {
                if qi < q.len() {
                    assert(q2[qi] == q[qi]);
                } else {
                    let t = qi - q.len();
                    assert(q2[qi] == exp[t]);
                    assert(exp[t].1 == cur && exp[t].2 >= vdist(m, cur));
                    assert(m[a].2 <= vdist(m, cur));
                }
            }
            assert forall|qi: int|
                0 <= qi < q2.len() && vcontains(m2, (#[trigger] q2[qi]).0) implies vidx(
                m2,
                q2[qi].1,
            ) < vidx(m2, q2[qi].0) by {
                if qi < q.len() {
                    assert(q2[qi] == q[qi]);
                } else {
                    let t = qi - q.len();
                    assert(q2[qi] == exp[t]);
                    let y = exp[t].0;
                    assert(vcontains(m, y));
                    assert(vdist(m, y) > exp[t].2) by {
                        assert(!(vcontains(m, y) && vdist(m, y) <= exp[t].2));
                    }
                    assert(exp[t].2 >= vdist(m, cur));
                    // strictly heavier than the pending node: settled
                    // later in the order
                    let ay = vidx(m, y);
                    let ac = vidx(m, cur);
                    assert(m[ay].2 == vdist(m, y) && m[ac].2 == vdist(m, cur));
                    assert(m[ay].2 > m[ac].2);
                    assert(ac < ay) by {
                        if ay <= ac {
                            assert(m[ay].2 <= m[ac].2);
                        }
                    }
                }
            }
        },
    }
}

/// Every expansion entry carries the pending node as predecessor, a
/// candidate distance at or above the pending node's, and an id that is
/// either unsettled or settled strictly above the candidate.
proof fn lemma_dijk_expand_shape(
    edges: Seq<(Seq<char>, u64)>,
    vis: Seq<(Seq<char>, Seq<char>, u64)>,
    cur: Seq<char>,
    base: u64,
)
    ensures
        forall|t: int|
            0 <= t < dijk_expand(edges, vis, cur, base).len() ==> {
                let e = #[trigger] dijk_expand(edges, vis, cur, base)[t];
                e.1 == cur && e.2 >= base && !(vcontains(vis, e.0) && vdist(vis, e.0) <= e.2)
            },
    decreases edges.len(),
{
    if edges.len() > 0 {
        lemma_dijk_expand_shape(edges.skip(1), vis, cur, base);
        let head = dijk_expand_one(vis, cur, base, edges[0]);
        let rest = dijk_expand(edges.skip(1), vis, cur, base);
        let whole = dijk_expand(edges, vis, cur, base);
        assert forall|t: int| 0 <= t < whole.len() implies {
            let e = #[trigger] whole[t];
            e.1 == cur && e.2 >= base && !(vcontains(vis, e.0) && vdist(vis, e.0) <= e.2)
        } by {
            if t < head.len() {
                assert(whole[t] == head[0]);
            } else {
                assert(whole[t] == rest[t - head.len()]);
            }
        }
    }
}

/// The ids of a reported path, in order.
pub open spec fn path_ids(p: Seq<(Seq<char>, u64)>) -> Seq<Seq<char>> {
    p.map_values(|e: (Seq<char>, u64)| e.0)
}

/// What the shortest-path search reports when it finds a path: a valid
/// simple path from start to end whose every entry carries exactly the
/// cumulative weight of the path up to it — so the last entry carries
/// the whole path's weight.
pub open spec fn dijk_path_reported(
    g: Graph,
    start: Seq<char>,
    dest: Seq<char>,
    p: Seq<(Seq<char>, u64)>,
) -> bool {
    &&& simple_path(g, start, dest, p)
    &&& wf_path(g, path_ids(p))
    &&& forall|i: int|
        0 <= i < p.len() ==> (#[trigger] p[i]).1 == path_weight(g, path_ids(p).take(i + 1))
}

/// The weight of the walked prefix never exceeds the recorded distance:
/// records only ever improve after their entries were pushed.
proof fn lemma_dijk_telescope(
    g: Graph,
    m: Seq<(Seq<char>, Seq<char>, u64)>,
    start: Seq<char>,
    p: Seq<(Seq<char>, u64)>,
    i: int,
)
    requires
        g.wf(),
        vunique(m),
        forall|a: int| 0 <= a < m.len() ==> #[trigger] dijk_ventry_ok(g, m, start, a),
        p.len() >= 1,
        forall|a: int|
            0 <= a < p.len() ==> vcontains(m, (#[trigger] p[a]).0) && p[a].1 == vdist(m, p[a].0),
        forall|a: int| 0 <= a < p.len() - 1 ==> vfrom(m, (#[trigger] p[a + 1]).0) == p[a].0,
        forall|a: int, b: int| 0 <= a < b < p.len() ==> (#[trigger] p[a]).0 != (#[trigger] p[b]).0,
        p[0].0 == start,
        vfrom(m, p[0].0) == sentinel(),
        0 <= i < p.len(),
    ensures
        path_weight(g, path_ids(p).take(i + 1)) <= p[i].1,
    decreases i,
{
    let ids = path_ids(p);
    assert(forall|a: int| 0 <= a < p.len() ==> ids[a] == (#[trigger] p[a]).0);
    if i == 0 {
        assert(path_weight(g, ids.take(1)) == 0);
        let a = vidx(m, p[0].0);
        assert(m[a].0 == p[0].0 && m[a].1 == sentinel());
        assert(dijk_ventry_ok(g, m, start, a));
        assert(a == 0) by {
            if a != 0 {
                assert(m[a].1 != sentinel());
            }
        }
        assert(p[0].1 == 0);
    } else {
        lemma_dijk_telescope(g, m, start, p, i - 1);
        let a = vidx(m, p[i].0);
        assert(m[a].0 == p[i].0);
        assert(dijk_ventry_ok(g, m, start, a));
        assert(a != 0) by {
            if a == 0 {
                assert(m[0].0 == start);
                assert(p[i].0 == start);
                assert(p[0].0 == p[i].0);
            }
        }
        assert(m[a].1 == vfrom(m, p[i].0) && m[a].1 == p[i - 1].0);
        assert(vcontains(m, m[a].1));
        assert(g.node_of(m[a].1).edge_lookup(m[a].0) is Some);
        let w = g.node_of(p[i - 1].0).edge_lookup(p[i].0)->Some_0;
        assert(m[a].2 >= vdist(m, m[a].1).saturating_add(w));
        assert(vdist(m, p[i - 1].0) == p[i - 1].1);
        assert(p[i].1 == m[a].2);
        assert(ids.take(i + 1).drop_last() =~= ids.take(i));
        assert(ids.take(i + 1)[i] == p[i].0 && ids.take(i + 1)[i - 1] == p[i - 1].0);
        assert(path_weight(g, ids.take(i + 1)) == path_weight(g, ids.take(i)).saturating_add(w));
        lemma_sat_mono(path_weight(g, ids.take(i)), p[i - 1].1, w);
    }
}

/// The visited records of a monotone shortest-path machine form proper
/// predecessor chains, and the reconstructed path for the settled
/// destination is a valid simple path carrying exactly the cumulative
/// weights of its prefixes.
#[verifier::rlimit(60)]
#[verifier::spinoff_prover]
pub proof fn lemma_dijk_path_valid(
    g: Graph,
    start: Seq<char>,
    dest: Seq<char>,
    m: Seq<(Seq<char>, Seq<char>, u64)>,
    p: Seq<(Seq<char>, u64)>,
)
    requires
        g.wf(),
        vunique(m),
        forall|i: int| 0 <= i < m.len() ==> #[trigger] dijk_ventry_ok(g, m, start, i),
        forall|i: int| 0 <= i < m.len() ==> g.contains_id((#[trigger] m[i]).0),
        forall|i: int|
            0 <= i < m.len() && (#[trigger] m[i]).1 != sentinel() ==> vidx(m, m[i].1) < i,
        settled_optimal(g, start, m),
        vcontains(m, dest),
        p == walk(m, dest, m.len() as nat).reverse(),
    ensures
        dijk_path_reported(g, start, dest, p),
{
    assert(chain_ok(m, start)) by {
        assert forall|i: int| 0 <= i < m.len() implies #[trigger] chain_entry_ok(m, start, i) by {
            assert(dijk_ventry_ok(g, m, start, i));
            if i == 0 {
                assert(m[0].1 == sentinel());
            }
        }
    }
    lemma_walk_round_trip(m, start, dest, m.len() as nat);
    let w = walk(m, dest, m.len() as nat);
    let n = w.len();
    assert(p.len() == n);
    assert(forall|i: int| 0 <= i < n ==> p[i] == w[n - 1 - i]);
    assert(p[0].0 == start && p[n - 1].0 == dest);
    assert forall|i: int, j: int| 0 <= i < j < p.len() implies (#[trigger] p[i]).0 != (
    #[trigger] p[j]).0 by {
        assert(w[n - 1 - j].0 != w[n - 1 - i].0);
    }
    assert forall|i: int|
        0 <= i < p.len() implies vcontains(m, (#[trigger] p[i]).0) && p[i].1 == vdist(
        m,
        p[i].0,
    ) by {
        assert(p[i] == w[n - 1 - i]);
    }
    assert forall|i: int| 0 <= i < p.len() - 1 implies vfrom(m, (#[trigger] p[i + 1]).0)
        == p[i].0 by {
        assert(p[i + 1] == w[n - 2 - i] && p[i] == w[n - 1 - i]);
        assert(vfrom(m, w[n - 2 - i].0) == w[n - 1 - i].0);
    }
    assert(vfrom(m, p[0].0) == sentinel()) by {
        assert(p[0] == w[n - 1]);
    }
    assert forall|i: int| 0 <= i < p.len() - 1 implies g.contains_id((#[trigger] p[i]).0)
        && g.node_of(p[i].0).edge_lookup(p[i + 1].0) is Some by {
        let a = vidx(m, p[i + 1].0);
        assert(m[a].0 == p[i + 1].0);
        assert(dijk_ventry_ok(g, m, start, a));
        assert(a != 0) by {
            if a == 0 {
                assert(m[0].0 == start);
                assert(p[i + 1].0 == start);
                assert(p[0].0 == p[i + 1].0);
            }
        }
        assert(m[a].1 == vfrom(m, p[i + 1].0) && m[a].1 == p[i].0);
        assert(g.contains_id(p[i].0)) by {
            let b = vidx(m, p[i].0);
            assert(m[b].0 == p[i].0);
        }
    }
    assert(wf_path(g, path_ids(p))) by {
        let ids = path_ids(p);
        assert(forall|a: int| 0 <= a < p.len() ==> ids[a] == (#[trigger] p[a]).0);
        assert forall|a: int| 0 <= a < ids.len() implies g.contains_id(#[trigger] ids[a]) by {
            let b = vidx(m, p[a].0);
            assert(m[b].0 == p[a].0);
        }
        assert forall|a: int| 0 <= a < ids.len() - 1 implies g.node_of(
            #[trigger] ids[a],
        ).edge_lookup(ids[a + 1]) is Some by {
            assert(g.node_of(p[a].0).edge_lookup(p[a + 1].0) is Some);
        }
    }
    assert forall|i: int| 0 <= i < p.len() implies (#[trigger] p[i]).1 == path_weight(
        g,
        path_ids(p).take(i + 1),
    ) by {
        lemma_dijk_telescope(g, m, start, p, i);
        let ids = path_ids(p);
        let pre = ids.take(i + 1);
        assert(forall|a: int| 0 <= a < p.len() ==> ids[a] == (#[trigger] p[a]).0);
        assert(wf_path(g, pre)) by {
            assert(forall|a: int| 0 <= a <= i ==> #[trigger] pre[a] == ids[a]);
            assert forall|a: int| 0 <= a < pre.len() implies g.contains_id(#[trigger] pre[a]) by {
                let b = vidx(m, p[a].0);
                assert(m[b].0 == p[a].0);
            }
            assert forall|a: int| 0 <= a < pre.len() - 1 implies g.node_of(
                #[trigger] pre[a],
            ).edge_lookup(pre[a + 1]) is Some by {
                assert(g.node_of(p[a].0).edge_lookup(p[a + 1].0) is Some);
            }
        }
        assert(pre[0] == start && pre[pre.len() - 1] == p[i].0);
        assert(vdist(m, p[i].0) <= path_weight(g, pre));
        assert(p[i].1 == vdist(m, p[i].0));
    }
}

/// The weight of a route whose hops all weigh `w`: the saturating sum of
/// `k` copies of `w`.
pub open spec fn wsum(k: nat, w: u64) -> u64
    decreases k,
{
    if k == 0 {
        0
    } else {
        wsum((k - 1) as nat, w).saturating_add(w)
    }
}

/// The sum of more copies is no smaller.
proof fn lemma_wsum_mono(k1: nat, k2: nat, w: u64)
    requires
        k1 <= k2,
    ensures
        wsum(k1, w) <= wsum(k2, w),
    decreases k2,
{
    if k1 < k2 {
        lemma_wsum_mono(k1, (k2 - 1) as nat, w);
        assert(wsum((k2 - 1) as nat, w) <= wsum(k2, w));
    }
}

/// In a graph whose every recorded edge weighs `w`, a route's weight is
/// the saturating sum of one `w` per hop.
proof fn lemma_equal_weight_route(g: Graph, w: u64, p: Seq<Seq<char>>)
    requires
        g.wf(),
        forall|i: int, j: int|
            0 <= i < g.nodes@.len() && 0 <= j < (#[trigger] g.nodes@[i]).edges@.len() ==> (
            #[trigger] g.nodes@[i].edges@[j]).1 == w,
        wf_path(g, p),
    ensures
        path_weight(g, p) == wsum((p.len() - 1) as nat, w),
    decreases p.len(),
{
    if p.len() <= 1 {
    } else {
        crate::graph::lemma_wf_path_drop_last(g, p);
        lemma_equal_weight_route(g, w, p.drop_last());
        let x = p[p.len() - 2];
        let y = p[p.len() - 1];
        let node = g.node_of(x);
        assert(node.edge_lookup(y) is Some);
        assert(node.has_edge(y));
        let ej = node.edge_idx(y);
        assert(0 <= ej < node.edges@.len() && node.edges@[ej].0@ == y);
        assert(g.contains_id(x));
        crate::graph::lemma_id_unique_all(g);
        let xi = g.idx_of(x);
        assert(g.nodes@[xi] == node);
        assert(node.edges@[ej].1 == w);
        assert(node.edge_lookup(y)->Some_0 == w);
    }
}

/// A reported breadth-first path's final cumulative distance is its
/// route's weight.
proof fn lemma_bfs_reported_weight(
    g: Graph,
    start: Seq<char>,
    dest: Seq<char>,
    p: Seq<(Seq<char>, u64)>,
    i: int,
)
    requires
        g.wf(),
        g.contains_id(dest),
        crate::bfs::bfs_path_reported(g, start, dest, p),
        0 <= i < p.len(),
    ensures
        p[i].1 == path_weight(g, path_ids(p).take(i + 1)),
    decreases i,
{
    let ids = path_ids(p);
    assert(forall|a: int| 0 <= a < p.len() ==> ids[a] == (#[trigger] p[a]).0);
    if i == 0 {
        assert(path_weight(g, ids.take(1)) == 0);
    } else {
        lemma_bfs_reported_weight(g, start, dest, p, i - 1);
        assert(ids.take(i + 1).drop_last() =~= ids.take(i));
        assert(ids.take(i + 1)[i] == p[i].0 && ids.take(i + 1)[i - 1] == p[i - 1].0);
        assert(g.node_of(p[i - 1].0).edge_lookup(p[i].0) is Some);
        let ww = g.node_of(p[i - 1].0).edge_lookup(p[i].0)->Some_0;
        assert(p[i].1 == p[i - 1].1.saturating_add(ww));
        assert(path_weight(g, ids.take(i + 1)) == path_weight(g, ids.take(i)).saturating_add(ww));
    }
}

/// A reported path's ids form a route of the graph.
proof fn lemma_reported_ids_route(
    g: Graph,
    start: Seq<char>,
    dest: Seq<char>,
    p: Seq<(Seq<char>, u64)>,
)
    requires
        g.wf(),
        g.contains_id(dest),
        simple_path(g, start, dest, p),
    ensures
        wf_path(g, path_ids(p)),
        path_ids(p).len() == p.len(),
        path_ids(p)[0] == start,
        path_ids(p)[path_ids(p).len() - 1] == dest,
{
    let ids = path_ids(p);
    assert(forall|a: int| 0 <= a < p.len() ==> ids[a] == (#[trigger] p[a]).0);
    assert forall|a: int| 0 <= a < ids.len() implies g.contains_id(#[trigger] ids[a]) by {
        if a < p.len() - 1 {
            assert(g.contains_id(p[a].0));
        } else {
            assert(p[a].0 == dest);
        }
    }
    assert forall|a: int| 0 <= a < ids.len() - 1 implies g.node_of(#[trigger] ids[a]).edge_lookup(
        ids[a + 1],
    ) is Some by {
        assert(g.node_of(p[a].0).edge_lookup(p[a + 1].0) is Some);
    }
}

/// With every edge weight equal, the shortest-path result's cumulative
/// weight equals the breadth-first result's: the hop-minimal route is
/// then also weight-minimal.
#[verifier::rlimit(60)]
#[verifier::spinoff_prover]
pub proof fn lemma_equal_weights_agree(
    g: Graph,
    start: Seq<char>,
    dest: Seq<char>,
    w: u64,
    pb: Seq<(Seq<char>, u64)>,
    pd: Seq<(Seq<char>, u64)>,
)
    requires
        g.wf(),
        g.contains_id(dest),
        forall|i: int, j: int|
            0 <= i < g.nodes@.len() && 0 <= j < (#[trigger] g.nodes@[i]).edges@.len() ==> (
            #[trigger] g.nodes@[i].edges@[j]).1 == w,
        crate::bfs::bfs_path_reported(g, start, dest, pb),
        forall|route: Seq<Seq<char>>|
            #[trigger] wf_path(g, route) && route[0] == start && route[route.len() - 1] == dest
                ==> pb.len() <= route.len(),
        dijk_path_reported(g, start, dest, pd),
        forall|route: Seq<Seq<char>>|
            wf_path(g, route) && route[0] == start && route[route.len() - 1] == dest ==> pd[pd.len()
                - 1].1 <= #[trigger] path_weight(g, route),
    ensures
        pd[pd.len() - 1].1 == pb[pb.len() - 1].1,
{
    let bids = path_ids(pb);
    let dids = path_ids(pd);
    lemma_reported_ids_route(g, start, dest, pb);
    lemma_reported_ids_route(g, start, dest, pd);
    // both final distances are their own route's weight
    lemma_bfs_reported_weight(g, start, dest, pb, pb.len() - 1);
    assert(bids.take(pb.len() as int) =~= bids);
    assert(pb[pb.len() - 1].1 == path_weight(g, bids));
    assert(dids.take(pd.len() as int) =~= dids);
    assert(pd[pd.len() - 1].1 == path_weight(g, dids));
    // the weight-minimal result is no heavier than the hop-minimal route
    assert(pd[pd.len() - 1].1 <= path_weight(g, bids));
    // and no lighter: it cannot have fewer hops, and every hop weighs w
    assert(pb.len() <= dids.len());
    lemma_equal_weight_route(g, w, bids);
    lemma_equal_weight_route(g, w, dids);
    lemma_wsum_mono((pb.len() - 1) as nat, (pd.len() - 1) as nat, w);
}

} // verus!
