//! The search contract shared by the three traversal engines: statuses,
//! machine states, frontier/visited entries and their views, and the
//! variant-agnostic path reconstruction.
//!
//! A frontier or visited entry is `(id, (predecessor, distance))`; the
//! empty string is the "no predecessor" sentinel marking the start node.

use vstd::prelude::*;
use crate::ids::id_eq;
use crate::node::Node;

verus! {

/// Outcome of one `next` step: still searching, or a terminal result.
#[derive(Debug, Copy, Clone, PartialEq, Eq, Structural)]
pub enum Status {
    Found,
    NotFound,
    Searching,
}

impl Status {
    /// A short description, for callers that display progress.
    pub fn message(&self) -> (r: &'static str)
        ensures
            self is Found ==> r@ =~= "Found"@,
            self is NotFound ==> r@ =~= "Not Found"@,
            self is Searching ==> r@ =~= "Searching"@,
    {
        match self {
            Status::Found => "Found",
            Status::NotFound => "Not Found",
            Status::Searching => "Searching",
        }
    }
}

/// The engine's internal state: about to pop a frontier entry, about to
/// expand the current node's neighbors, or terminal.
#[derive(Debug, Copy, Clone, PartialEq, Eq, Structural)]
pub enum State {
    Pop,
    Push,
    Done(Status),
}

/// The "no predecessor" marker: the empty id.
pub open spec fn sentinel() -> Seq<char> {
    Seq::<char>::empty()
}

/// View of one entry: `(id, predecessor, distance)`.
pub open spec fn ev(e: (String, (String, u64))) -> (Seq<char>, Seq<char>, u64) {
    (e.0@, e.1.0@, e.1.1)
}

/// View of a frontier or visited list.
pub open spec fn qv(q: Seq<(String, (String, u64))>) -> Seq<(Seq<char>, Seq<char>, u64)> {
    q.map_values(|e: (String, (String, u64))| ev(e))
}

/// View of a list of ids.
pub open spec fn sv(s: Seq<String>) -> Seq<Seq<char>> {
    s.map_values(|x: String| x@)
}

/// Whether a viewed entry list holds an entry for `k`.
pub open spec fn vcontains(m: Seq<(Seq<char>, Seq<char>, u64)>, k: Seq<char>) -> bool {
    exists|i: int| 0 <= i < m.len() && (#[trigger] m[i]).0 == k
}

/// The index of the entry for `k`, when there is one.
pub open spec fn vidx(m: Seq<(Seq<char>, Seq<char>, u64)>, k: Seq<char>) -> int {
    choose|i: int| 0 <= i < m.len() && (#[trigger] m[i]).0 == k
}

/// The predecessor recorded for `k`.
pub open spec fn vfrom(m: Seq<(Seq<char>, Seq<char>, u64)>, k: Seq<char>) -> Seq<char> {
    m[vidx(m, k)].1
}

/// The distance recorded for `k`.
pub open spec fn vdist(m: Seq<(Seq<char>, Seq<char>, u64)>, k: Seq<char>) -> u64 {
    m[vidx(m, k)].2
}

/// Each id keys at most one entry.
pub open spec fn vunique(m: Seq<(Seq<char>, Seq<char>, u64)>) -> bool {
    forall|i: int, j: int| 0 <= i < j < m.len() ==> (#[trigger] m[i]).0 != (#[trigger] m[j]).0
}

/// In a unique entry list a key picks out a single index.
pub proof fn lemma_vidx_unique(m: Seq<(Seq<char>, Seq<char>, u64)>, i: int, j: int)
    requires
        vunique(m),
        0 <= i < m.len(),
        0 <= j < m.len(),
        m[i].0 == m[j].0,
    ensures
        i == j,
{
}

/// The predecessor walk: starting at `k`, emit `(id, distance)` and step
/// to the recorded predecessor; stop on the sentinel, on an id without an
/// entry, or when the fuel — one unit per emitted entry — runs out.
pub open spec fn walk(m: Seq<(Seq<char>, Seq<char>, u64)>, k: Seq<char>, fuel: nat) -> Seq<
    (Seq<char>, u64),
>
    decreases fuel,
{
    if fuel == 0 || !vcontains(m, k) {
        Seq::empty()
    } else {
        let step = seq![(k, vdist(m, k))];
        if vfrom(m, k) == sentinel() {
            step
        } else {
            step + walk(m, vfrom(m, k), (fuel - 1) as nat)
        }
    }
}

/// View of a reconstructed path.
pub open spec fn pv(p: Seq<(String, u64)>) -> Seq<(Seq<char>, u64)> {
    p.map_values(|e: (String, u64)| (e.0@, e.1))
}

/// The ids of a viewed entry list, in order.
pub open spec fn keys_of(s: Seq<(Seq<char>, Seq<char>, u64)>) -> Seq<Seq<char>> {
    s.map_values(|e: (Seq<char>, Seq<char>, u64)| e.0)
}

/// View of a node's neighbor mapping: `(neighbor id, weight)` in sorted
/// order.
pub open spec fn edge_views(n: Node) -> Seq<(Seq<char>, u64)> {
    n.edges@.map_values(|e: (String, u64)| (e.0@, e.1))
}

/// Whether the id list holds `k`.
#[verifier::loop_isolation(false)]
pub fn id_list_contains(v: &Vec<String>, k: &str) -> (r: bool)
    ensures
        r == sv(v@).contains(k@),
{
    let mut i: usize = 0;
    while i < v.len()
        invariant
            0 <= i <= v@.len(),
            forall|j: int| 0 <= j < i ==> (#[trigger] v@[j])@ != k@,
        decreases v@.len() - i,
    {
        if id_eq(v[i].as_str(), k) {
            proof {
                assert(sv(v@)[i as int] == v@[i as int]@);
            }
            return true;
        }
        i = i + 1;
    }
    proof {
        assert forall|j: int| 0 <= j < sv(v@).len() implies (#[trigger] sv(v@)[j]) != k@ by {
            assert(sv(v@)[j] == v@[j]@);
        }
    }
    false
}

/// The index of the entry for `k`, if the list holds one.
#[verifier::loop_isolation(false)]
pub fn vfind(v: &Vec<(String, (String, u64))>, k: &str) -> (r: Option<usize>)
    ensures
        match r {
            Some(i) => i < v@.len() && v@[i as int].0@ == k@,
            None => !vcontains(qv(v@), k@),
        },
{
    let mut i: usize = 0;
    while i < v.len()
        invariant
            0 <= i <= v@.len(),
            forall|j: int| 0 <= j < i ==> (#[trigger] v@[j]).0@ != k@,
        decreases v@.len() - i,
    {
        if id_eq(v[i].0.as_str(), k) {
            return Some(i);
        }
        i = i + 1;
    }
    proof {
        assert forall|j: int| 0 <= j < qv(v@).len() implies (#[trigger] qv(v@)[j]).0 != k@ by {
            assert(qv(v@)[j] == ev(v@[j]));
        }
    }
    None
}

/// Walks the visited predecessor chain back from `dest` and returns the
/// `(id, distance)` sequence reordered to run start-to-destination.
pub fn reconstruct_path(visited: &Vec<(String, (String, u64))>, dest: &str) -> (r: Vec<
    (String, u64),
>)
    requires
        vunique(qv(visited@)),
    ensures
        pv(r@) == walk(qv(visited@), dest@, visited@.len() as nat).reverse(),
{
    let ghost m = qv(visited@);
    let ghost total = visited@.len() as nat;
    let mut back: Vec<(String, u64)> = Vec::new();
    let mut cur: String = dest.to_owned();
    let mut fuel: usize = visited.len();
    loop
        invariant_except_break
            qv(visited@) == m,
            vunique(m),
            fuel <= total,
            walk(m, dest@, total) == pv(back@) + walk(m, cur@, fuel as nat),
        ensures
            walk(m, dest@, total) == pv(back@),
        decreases fuel,
    {
        if fuel == 0 {
            proof {
                assert(pv(back@) + walk(m, cur@, 0) =~= pv(back@));
            }
            break ;
        }
        let found = vfind(visited, cur.as_str());
        match found {
            None => {
                proof {
                    assert(walk(m, cur@, fuel as nat) =~= Seq::<(Seq<char>, u64)>::empty());
                    assert(pv(back@) + walk(m, cur@, fuel as nat) =~= pv(back@));
                }
                break ;
            },
            Some(i) => {
                proof {
                    assert(m[i as int] == ev(visited@[i as int]));
                    assert(vcontains(m, cur@));
                    lemma_vidx_unique(m, i as int, vidx(m, cur@));
                    assert(vdist(m, cur@) == visited@[i as int].1.1);
                    assert(vfrom(m, cur@) == visited@[i as int].1.0@);
                }
                let from: String = visited[i].1.0.clone();
                let dist: u64 = visited[i].1.1;
                let ghost prev_back = back@;
                back.push((cur, dist));
                proof {
                    assert(pv(back@) =~= pv(prev_back) + seq![(visited@[i as int].0@, dist)]);
                }
                if from.as_str().is_empty() {
                    proof {
                        assert(from@ =~= sentinel());
                        assert(walk(m, visited@[i as int].0@, fuel as nat) =~= seq![
                            (visited@[i as int].0@, dist),
                        ]);
                        assert(pv(prev_back) + walk(m, visited@[i as int].0@, fuel as nat)
                            =~= pv(back@));
                    }
                    break ;
                }
                proof {
                    assert(walk(m, visited@[i as int].0@, fuel as nat) =~= seq![
                        (visited@[i as int].0@, dist),
                    ] + walk(m, from@, (fuel - 1) as nat));
                    assert(pv(prev_back) + walk(m, visited@[i as int].0@, fuel as nat) =~= pv(
                        back@,
                    ) + walk(m, from@, (fuel - 1) as nat));
                }
                cur = from;
                fuel = fuel - 1;
            },
        }
    }
    let mut out: Vec<(String, u64)> = Vec::new();
    let mut i: usize = back.len();
    while i > 0
        invariant
            0 <= i <= back@.len(),
            out@.len() == back@.len() - i,
            forall|j: int| 0 <= j < out@.len() ==> out@[j] == back@[back@.len() - 1 - j],
        decreases i,
    {
        i = i - 1;
        let id: String = back[i].0.clone();
        let dist: u64 = back[i].1;
        out.push((id, dist));
    }
    proof {
        assert(pv(out@) =~= pv(back@).reverse());
    }
    out
}

/// Element-wise copy of an entry list, for frontier and visited
/// snapshots.
#[verifier::loop_isolation(false)]
pub fn clone_entries(v: &Vec<(String, (String, u64))>) -> (r: Vec<(String, (String, u64))>)
    ensures
        r@ == v@,
{
    let mut r: Vec<(String, (String, u64))> = Vec::new();
    let mut i: usize = 0;
    while i < v.len()
        invariant
            0 <= i <= v@.len(),
            r@ =~= v@.take(i as int),
        decreases v@.len() - i,
    {
        let e = (v[i].0.clone(), (v[i].1.0.clone(), v[i].1.1));
        r.push(e);
        proof {
            assert(e == v@[i as int]);
            assert(r@ =~= v@.take(i as int + 1));
        }
        i = i + 1;
    }
    proof {
        assert(v@.take(v@.len() as int) =~= v@);
    }
    r
}

/// Membership in a concatenation of id lists.
pub proof fn lemma_contains_concat(a: Seq<Seq<char>>, b: Seq<Seq<char>>, k: Seq<char>)
    ensures
        (a + b).contains(k) <==> a.contains(k) || b.contains(k),
{
    if a.contains(k) {
        let i = choose|i: int| 0 <= i < a.len() && a[i] == k;
        assert((a + b)[i] == k);
    }
    if b.contains(k) {
        let i = choose|i: int| 0 <= i < b.len() && b[i] == k;
        assert((a + b)[a.len() + i] == k);
    }
    if (a + b).contains(k) {
        let i = choose|i: int| 0 <= i < (a + b).len() && (a + b)[i] == k;
        if i < a.len() {
            assert(a[i] == k);
        } else {
            assert(b[i - a.len()] == k);
        }
    }
}

/// How many graph ids have no visited record yet: the drivers' primary
/// termination measure.
pub open spec fn unsettled_count(ids: Seq<Seq<char>>, m: Seq<(Seq<char>, Seq<char>, u64)>) -> nat
    decreases ids.len(),
{
    if ids.len() == 0 {
        0
    } else {
        (if vcontains(m, ids[0]) {
            0nat
        } else {
            1nat
        }) + unsettled_count(ids.skip(1), m)
    }
}

/// Settling more ids never raises the measure.
pub proof fn lemma_unsettled_mono(
    ids: Seq<Seq<char>>,
    m1: Seq<(Seq<char>, Seq<char>, u64)>,
    m2: Seq<(Seq<char>, Seq<char>, u64)>,
)
    requires
        forall|k: Seq<char>| vcontains(m1, k) ==> vcontains(m2, k),
    ensures
        unsettled_count(ids, m2) <= unsettled_count(ids, m1),
    decreases ids.len(),
{
    if ids.len() > 0 {
        lemma_unsettled_mono(ids.skip(1), m1, m2);
    }
}

/// Settling an id that the graph holds and that had no record yet
/// strictly lowers the measure.
pub proof fn lemma_unsettled_strict(
    ids: Seq<Seq<char>>,
    m1: Seq<(Seq<char>, Seq<char>, u64)>,
    m2: Seq<(Seq<char>, Seq<char>, u64)>,
    k: Seq<char>,
)
    requires
        forall|kk: Seq<char>| vcontains(m1, kk) ==> vcontains(m2, kk),
        !vcontains(m1, k),
        vcontains(m2, k),
        ids.contains(k),
    ensures
        unsettled_count(ids, m2) < unsettled_count(ids, m1),
    decreases ids.len(),
{
    if ids[0] == k {
        lemma_unsettled_mono(ids.skip(1), m1, m2);
    } else {
        assert(ids.skip(1).contains(k)) by {
            let i = choose|i: int| 0 <= i < ids.len() && ids[i] == k;
            assert(ids.skip(1)[i - 1] == k);
        }
        lemma_unsettled_strict(ids.skip(1), m1, m2, k);
    }
}

/// A step-machine state's rank: expansion steps sit above pop steps.
pub open spec fn state_rank(st: State) -> nat {
    if st is Push {
        1
    } else {
        0
    }
}

/// A visited mapping whose predecessor records form proper chains: each
/// one was settled strictly earlier, down to the start entry at index
/// zero, which carries the sentinel.
pub open spec fn chain_entry_ok(
    m: Seq<(Seq<char>, Seq<char>, u64)>,
    start: Seq<char>,
    i: int,
) -> bool {
    let e = m[i];
    if e.1 == sentinel() {
        e.0 == start && i == 0
    } else {
        vcontains(m, e.1) && vidx(m, e.1) < i
    }
}

pub open spec fn chain_ok(m: Seq<(Seq<char>, Seq<char>, u64)>, start: Seq<char>) -> bool {
    &&& vunique(m)
    &&& forall|i: int| 0 <= i < m.len() ==> #[trigger] chain_entry_ok(m, start, i)
}

/// Round trip of the predecessor walk: under proper chains the walk from
/// any settled id runs all the way to the start entry, emits exactly the
/// recorded `(id, distance)` pairs, never repeats an id, and re-walking
/// it — each element names the predecessor of the next — reproduces it.
pub proof fn lemma_walk_round_trip(
    m: Seq<(Seq<char>, Seq<char>, u64)>,
    start: Seq<char>,
    k: Seq<char>,
    fuel: nat,
)
    requires
        chain_ok(m, start),
        vcontains(m, k),
        fuel >= vidx(m, k) + 1,
    ensures
        ({
            let w = walk(m, k, fuel);
            &&& w.len() >= 1
            &&& w[0] == (k, vdist(m, k))
            &&& forall|i: int|
                0 <= i < w.len() ==> vcontains(m, (#[trigger] w[i]).0) && w[i].1 == vdist(
                    m,
                    w[i].0,
                )
            &&& forall|i: int|
                0 <= i < w.len() - 1 ==> vfrom(m, (#[trigger] w[i]).0) == w[i + 1].0
            &&& vfrom(m, w[w.len() - 1].0) == sentinel()
            &&& w[w.len() - 1].0 == start
            &&& forall|i: int| 0 <= i < w.len() ==> vidx(m, (#[trigger] w[i]).0) <= vidx(m, k)
            &&& forall|i: int, j: int|
                0 <= i < j < w.len() ==> vidx(m, (#[trigger] w[i]).0) > vidx(m, (#[trigger] w[j]).0)
            &&& forall|i: int, j: int|
                0 <= i < j < w.len() ==> (#[trigger] w[i]).0 != (#[trigger] w[j]).0
        }),
    decreases vidx(m, k),
{
    let w = walk(m, k, fuel);
    let p = vidx(m, k);
    assert(0 <= p < m.len() && m[p].0 == k);
    assert(chain_entry_ok(m, start, p));
    if vfrom(m, k) == sentinel() {
        assert(m[p].1 == sentinel());
        assert(k == start && p == 0);
        assert(w =~= seq![(k, vdist(m, k))]);
    } else {
        let k2 = vfrom(m, k);
        assert(m[p].1 == k2);
        assert(vcontains(m, k2) && vidx(m, k2) < p);
        lemma_walk_round_trip(m, start, k2, (fuel - 1) as nat);
        let w2 = walk(m, k2, (fuel - 1) as nat);
        assert(w =~= seq![(k, vdist(m, k))] + w2);
        assert(w[0] == (k, vdist(m, k)));
        assert(forall|i: int| 1 <= i < w.len() ==> w[i] == w2[i - 1]);
        assert forall|i: int, j: int| 0 <= i < j < w.len() implies vidx(m, (#[trigger] w[i]).0)
            > vidx(m, (#[trigger] w[j]).0) by {
            if i == 0 {
                assert(vidx(m, w2[j - 1].0) <= vidx(m, k2));
            }
        }
        assert forall|i: int, j: int| 0 <= i < j < w.len() implies (#[trigger] w[i]).0 != (
        #[trigger] w[j]).0 by {
            assert(vidx(m, w[i].0) > vidx(m, w[j].0));
        }
    }
}

/// A valid simple path: it starts at `start`, ends at `dest`, repeats no
/// id, and each hop follows a recorded edge of the graph.
pub open spec fn simple_path(
    g: crate::graph::Graph,
    start: Seq<char>,
    dest: Seq<char>,
    p: Seq<(Seq<char>, u64)>,
) -> bool {
    &&& p.len() > 0
    &&& p[0].0 == start
    &&& p[p.len() - 1].0 == dest
    &&& forall|i: int, j: int| 0 <= i < j < p.len() ==> (#[trigger] p[i]).0 != (#[trigger] p[j]).0
    &&& forall|i: int|
        0 <= i < p.len() - 1 ==> g.contains_id((#[trigger] p[i]).0) && g.node_of(
            p[i].0,
        ).edge_lookup(p[i + 1].0) is Some
}

} // verus!
