//! The joint graph of creature parts and its traversal.
//!
//! Nodes are rigid bodies (creature parts, identified by their entity bits),
//! and every joint between two parts is an undirected edge.
//! The traversal walks every joint path leaving a part without ever stepping
//! straight back to the node it just came from, the way the physics joint graph is walked in game.

use vstd::prelude::*;

verus! {

/// Joint distance reported for a walk with `d` joints; distances saturate at `u16::MAX`.
pub open spec fn saturate(d: nat) -> u16 {
    if d >= 65535 {
        65535
    } else {
        d as u16
    }
}

/// The node that the step leaving index `i` of walk `w` may not return to.
pub open spec fn step_back(w: Seq<usize>, i: int) -> usize {
    if i == 0 {
        w[0]
    } else {
        w[i - 1]
    }
}

/// Step `i` of `w` follows a joint and does not return to where it came from.
pub open spec fn step_ok(adj: Seq<Seq<usize>>, w: Seq<usize>, i: int) -> bool {
    &&& adj[w[i] as int].contains(w[i + 1])
    &&& w[i + 1] != step_back(w, i)
}

/// `w` is a non-empty, non-backtracking walk along joints of the graph `adj`.
pub open spec fn is_walk(adj: Seq<Seq<usize>>, w: Seq<usize>) -> bool {
    &&& w.len() >= 1
    &&& forall|i: int| 0 <= i < w.len() ==> (#[trigger] w[i]) < adj.len()
    &&& forall|i: int| 0 <= i < w.len() - 1 ==> #[trigger] step_ok(adj, w, i)
}

/// Every walk leaving `origin` is a path: it never reaches a node twice.
///
/// This holds exactly when the part of the graph reachable from `origin` has no cycles,
/// and it is what makes the traversal from `origin` terminate.
pub open spec fn walks_are_paths(adj: Seq<Seq<usize>>, origin: usize) -> bool {
    forall|w: Seq<usize>| #[trigger] is_walk(adj, w) && w[0] == origin ==> w.no_duplicates()
}

/// The pairs of (body, joint distance) that the traversal reports below node `cur`,
/// reached from `ign`, where the neighbors of `cur` are `depth` joints away from the origin.
pub open spec fn visits_from(
    adj: Seq<Seq<usize>>,
    bodies: Seq<u64>,
    cur: usize,
    ign: usize,
    depth: nat,
    fuel: nat,
) -> Seq<(u64, u16)>
    decreases fuel, adj[cur as int].len() + 1,
{
    visits_list(adj, bodies, cur, ign, depth, fuel, adj[cur as int].len())
}

/// The pairs reported while handling the first `k` neighbors of `cur`.
pub open spec fn visits_list(
    adj: Seq<Seq<usize>>,
    bodies: Seq<u64>,
    cur: usize,
    ign: usize,
    depth: nat,
    fuel: nat,
    k: nat,
) -> Seq<(u64, u16)>
    decreases fuel, k,
{
    if k == 0 || fuel == 0 {
        seq![]
    } else {
        let prev = visits_list(adj, bodies, cur, ign, depth, fuel, (k - 1) as nat);
        let nb = adj[cur as int][k - 1];
        if nb == ign {
            prev
        } else {
            prev + seq![(bodies[nb as int], saturate(depth))] + visits_from(
                adj,
                bodies,
                nb,
                cur,
                depth + 1,
                (fuel - 1) as nat,
            )
        }
    }
}

/// A graph of rigid bodies connected by joints.
pub struct PartGraph {
    /// Entity bits of the body at each node.
    pub bodies: Vec<u64>,
    /// Neighbor nodes of each node, in the order the joint graph lists them.
    pub neighbors: Vec<Vec<usize>>,
}

impl PartGraph {
    /// The adjacency lists as sequences.
    pub open spec fn adj(&self) -> Seq<Seq<usize>> {
        Seq::new(self.neighbors.len() as nat, |i: int| self.neighbors[i]@)
    }

    /// Every node has a body and every neighbor index names a node.
    pub open spec fn wf(&self) -> bool {
        &&& self.bodies.len() == self.neighbors.len()
        &&& forall|i: int, j: int|
            0 <= i < self.neighbors.len() && 0 <= j < self.neighbors[i].len() ==> #[trigger] self.neighbors[i][j]
                < self.neighbors.len()
    }

    /// The first node whose body is `entity`.
    pub open spec fn spec_body_of(&self, entity: u64) -> Option<usize> {
        if exists|i: int|
            0 <= i < self.bodies.len() && self.bodies[i] == entity && forall|j: int|
                0 <= j < i ==> self.bodies[j] != entity {
            let i = choose|i: int|
                0 <= i < self.bodies.len() && self.bodies[i] == entity && forall|j: int|
                    0 <= j < i ==> self.bodies[j] != entity;
            Some(i as usize)
        } else {
            None
        }
    }

    /// Everything the traversal from `entity` reports, in order.
    pub open spec fn spec_traverse(&self, entity: u64) -> Seq<(u64, u16)> {
        match self.spec_body_of(entity) {
            Some(o) => visits_from(self.adj(), self.bodies@, o, o, 1, self.bodies.len() as nat),
            None => seq![],
        }
    }

    /// The traversal from `entity` terminates: it is absent, or every walk leaving it is a path.
    pub open spec fn traversable_from(&self, entity: u64) -> bool {
        forall|i: int|
            0 <= i < self.bodies.len() && self.bodies[i] == entity ==> walks_are_paths(
                self.adj(),
                i as usize,
            )
    }

    /// Returns the node of the body `entity`, if it is in the graph.
    pub fn body_of(&self, entity: u64) -> (r: Option<usize>)
        ensures
            r == self.spec_body_of(entity),
    {
        let mut i: usize = 0;
        while i < self.bodies.len()
            invariant
                i <= self.bodies.len(),
                forall|j: int| 0 <= j < i ==> self.bodies[j] != entity,
            decreases self.bodies.len() - i,
        {
            if self.bodies[i] == entity {
                proof {
                    let c = choose|c: int|
                        0 <= c < self.bodies.len() && self.bodies[c] == entity && forall|j: int|
                            0 <= j < c ==> self.bodies[j] != entity;
                    assert(0 <= i as int && self.bodies[i as int] == entity);
                    if c < i {
                    } else if c > i {
                        assert(self.bodies[i as int] != entity);
                    }
                }
                return Some(i);
            }
            i += 1;
        }
        None
    }

    /// Lists the body of and distance in joints to every part reached by walking the joints
    /// away from `origin`, starting from but not including `origin`.
    ///
    /// Nothing is listed when `origin` is not in the graph.
    pub fn traverse_connected(&self, origin: u64) -> (visits: Vec<(u64, u16)>)
        requires
            self.wf(),
            self.traversable_from(origin),
        ensures
            visits@ == self.spec_traverse(origin),
    {
        let mut out: Vec<(u64, u16)> = Vec::new();
        match self.body_of(origin) {
            Some(o) => {
                let ghost path = seq![o];
                proof {
                    assert(self.adj().len() == self.bodies.len());
                    assert(path[0] == o);
                    assert(0 <= o < self.bodies.len() && self.bodies[o as int] == origin);
                    assert(walks_are_paths(self.adj(), path[0]));
                    assert(is_walk(self.adj(), path));
                    lemma_path_len_bounded(path, self.bodies.len() as nat);
                }
                self.walk(o, o, 1, &mut out, Ghost(path));
                assert(out@ =~= visits_from(
                    self.adj(),
                    self.bodies@,
                    o,
                    o,
                    1,
                    self.bodies.len() as nat,
                ));
            },
            None => {},
        }
        out
    }

    fn walk(
        &self,
        cur: usize,
        ign: usize,
        depth: u16,
        out: &mut Vec<(u64, u16)>,
        Ghost(path): Ghost<Seq<usize>>,
    )
        requires
            self.wf(),
            is_walk(self.adj(), path),
            walks_are_paths(self.adj(), path[0]),
            path.len() <= self.bodies.len(),
            path.last() == cur,
            ign == step_back(path, path.len() - 1),
            depth == saturate(path.len()),
        ensures
            final(out)@ == old(out)@ + visits_from(
                self.adj(),
                self.bodies@,
                cur,
                ign,
                path.len(),
                (self.bodies.len() + 1 - path.len()) as nat,
            ),
        decreases self.bodies.len() + 1 - path.len(),
    {
        let ghost adj = self.adj();
        let ghost n = self.bodies.len();
        let ghost fuel = (n + 1 - path.len()) as nat;
        let ghost start = out@;
        let nbrs = &self.neighbors[cur];
        assert(nbrs@ == adj[cur as int]);
        let mut k: usize = 0;
        while k < nbrs.len()
            invariant
                self.wf(),
                adj == self.adj(),
                n == self.bodies.len(),
                fuel == (n + 1 - path.len()) as nat,
                is_walk(adj, path),
                walks_are_paths(adj, path[0]),
                path.len() <= n,
                path.last() == cur,
                cur < n,
                ign == step_back(path, path.len() - 1),
                depth == saturate(path.len()),
                nbrs@ == adj[cur as int],
                k <= nbrs.len(),
                out@ == start + visits_list(adj, self.bodies@, cur, ign, path.len(), fuel, k as nat),
            decreases nbrs.len() - k,
        {
            let nb = nbrs[k];
            if nb != ign {
                assert(nb < n);
                out.push((self.bodies[nb], depth));
                let ghost p2 = path.push(nb);
                proof {
                    assert(adj[cur as int].contains(nb)) by {
                        assert(adj[cur as int][k as int] == nb);
                    }
                    assert forall|i: int| 0 <= i < p2.len() - 1 implies #[trigger] step_ok(adj, p2, i) by {
                        if i < path.len() - 1 {
                            assert(step_ok(adj, path, i));
                            assert(p2[i] == path[i] && p2[i + 1] == path[i + 1]);
                            assert(step_back(p2, i) == step_back(path, i));
                        } else {
                            assert(p2[i] == cur && p2[i + 1] == nb);
                            assert(step_back(p2, i) == step_back(path, path.len() - 1));
                        }
                    }
                    assert forall|i: int| 0 <= i < p2.len() implies (#[trigger] p2[i]) < adj.len() by {
                        if i < path.len() {
                            assert(p2[i] == path[i]);
                        }
                    }
                    assert(is_walk(adj, p2));
                    assert(p2[0] == path[0]);
                    assert(p2.no_duplicates());
                    lemma_path_len_bounded(p2, n as nat);
                    assert(p2.last() == nb);
                    assert(step_back(p2, p2.len() - 1) == cur);
                }
                let ghost mid = out@;
                self.walk(nb, cur, depth.saturating_add(1), out, Ghost(p2));
                proof {
                    assert(fuel > 0);
                    assert(((n + 1 - p2.len()) as nat) == (fuel - 1) as nat);
                    let prev = visits_list(adj, self.bodies@, cur, ign, path.len(), fuel, k as nat);
                    assert(visits_list(adj, self.bodies@, cur, ign, path.len(), fuel, (k + 1) as nat)
                        == prev + seq![(self.bodies@[nb as int], saturate(path.len() as nat))]
                        + visits_from(adj, self.bodies@, nb, cur, path.len() + 1, (fuel - 1) as nat));
                    assert(out@ =~= start + visits_list(
                        adj,
                        self.bodies@,
                        cur,
                        ign,
                        path.len(),
                        fuel,
                        (k + 1) as nat,
                    ));
                }
            } else {
                proof {
                    assert(fuel > 0);
                    assert(visits_list(adj, self.bodies@, cur, ign, path.len(), fuel, (k + 1) as nat)
                        == visits_list(adj, self.bodies@, cur, ign, path.len(), fuel, k as nat));
                }
            }
            k += 1;
        }
        assert(visits_from(adj, self.bodies@, cur, ign, path.len(), fuel) == visits_list(
            adj,
            self.bodies@,
            cur,
            ign,
            path.len(),
            fuel,
            adj[cur as int].len(),
        ));
    }
}


/// Every neighbor index names a node.
pub open spec fn adj_wf(adj: Seq<Seq<usize>>) -> bool {
    forall|i: int, j: int| 0 <= i < adj.len() && 0 <= j < adj[i].len() ==> #[trigger] adj[i][j] < adj.len()
}

/// `x` pairs the last body of some walk extending `path` with that walk's saturated joint count.
pub open spec fn walk_witness(
    adj: Seq<Seq<usize>>,
    bodies: Seq<u64>,
    path: Seq<usize>,
    x: (u64, u16),
) -> bool {
    exists|w: Seq<usize>|
        #![trigger is_walk(adj, w)]
        is_walk(adj, w) && w.len() > path.len() && w.take(path.len() as int) == path && bodies[w.last() as int]
            == x.0 && x.1 == saturate((w.len() - 1) as nat)
}

/// Every pair that the traversal below `path` reports is the last body of a walk extending
/// `path`, paired with the saturated number of joints of that walk.
proof fn lemma_list_sound(
    adj: Seq<Seq<usize>>,
    bodies: Seq<u64>,
    path: Seq<usize>,
    fuel: nat,
    k: nat,
)
    requires
        adj_wf(adj),
        is_walk(adj, path),
        k <= adj[path.last() as int].len(),
    ensures
        forall|i: int|
            #![trigger visits_list(adj, bodies, path.last(), step_back(path, path.len() - 1), path.len(), fuel, k)[i]]
            0 <= i < visits_list(adj, bodies, path.last(), step_back(path, path.len() - 1), path.len(), fuel, k).len()
                ==> walk_witness(
                adj,
                bodies,
                path,
                visits_list(adj, bodies, path.last(), step_back(path, path.len() - 1), path.len(), fuel, k)[i],
            ),
    decreases fuel, k,
{
    let cur = path.last();
    let ign = step_back(path, path.len() - 1);
    let l = path.len();
    let res = visits_list(adj, bodies, cur, ign, l, fuel, k);
    if k == 0 || fuel == 0 {
    } else {
        lemma_list_sound(adj, bodies, path, fuel, (k - 1) as nat);
        let prev = visits_list(adj, bodies, cur, ign, l, fuel, (k - 1) as nat);
        let nb = adj[cur as int][k - 1];
        if nb != ign {
            assert(nb < adj.len());
            assert(adj[cur as int].contains(nb));
            let p2 = path.push(nb);
            lemma_extend_walk(adj, path, nb);
            lemma_from_sound(adj, bodies, p2, (fuel - 1) as nat);
            let sub = visits_from(adj, bodies, nb, cur, l + 1, (fuel - 1) as nat);
            assert(p2.last() == nb && step_back(p2, p2.len() - 1) == cur);
            assert(res == prev + seq![(bodies[nb as int], saturate(l))] + sub);
            assert forall|i: int| 0 <= i < res.len() implies walk_witness(adj, bodies, path, #[trigger] res[i]) by {
                if i < prev.len() {
                    assert(res[i] == prev[i]);
                } else if i == prev.len() {
                    assert(p2.take(l as int) =~= path);
                    assert(res[i] == (bodies[nb as int], saturate(l)));
                    assert(is_walk(adj, p2));
                } else {
                    let j = i - prev.len() - 1;
                    assert(res[i] == sub[j]);
                    assert(walk_witness(adj, bodies, p2, sub[j]));
                    let w = choose|w: Seq<usize>|
                        #![trigger is_walk(adj, w)]
                        is_walk(adj, w) && w.len() > p2.len() && w.take(p2.len() as int) == p2
                            && bodies[w.last() as int] == sub[j].0 && sub[j].1 == saturate(
                            (w.len() - 1) as nat,
                        );
                    assert(w.take(l as int) =~= path) by {
                        assert forall|t: int| 0 <= t < l implies w[t] == path[t] by {
                            assert(w.take(p2.len() as int)[t] == p2[t]);
                        }
                    }
                    assert(is_walk(adj, w));
                    assert(w.len() > l);
                }
            }
        } else {
            assert(res == prev);
        }
    }
}

proof fn lemma_from_sound(adj: Seq<Seq<usize>>, bodies: Seq<u64>, path: Seq<usize>, fuel: nat)
    requires
        adj_wf(adj),
        is_walk(adj, path),
    ensures
        forall|i: int|
            #![trigger visits_from(adj, bodies, path.last(), step_back(path, path.len() - 1), path.len(), fuel)[i]]
            0 <= i < visits_from(adj, bodies, path.last(), step_back(path, path.len() - 1), path.len(), fuel).len()
                ==> walk_witness(
                adj,
                bodies,
                path,
                visits_from(adj, bodies, path.last(), step_back(path, path.len() - 1), path.len(), fuel)[i],
            ),
    decreases fuel, adj[path.last() as int].len() + 1,
{
    lemma_list_sound(adj, bodies, path, fuel, adj[path.last() as int].len());
    assert(visits_from(adj, bodies, path.last(), step_back(path, path.len() - 1), path.len(), fuel)
        == visits_list(
        adj,
        bodies,
        path.last(),
        step_back(path, path.len() - 1),
        path.len(),
        fuel,
        adj[path.last() as int].len(),
    ));
}

/// Appending a neighbor of the last node, other than the node it was reached from, keeps a walk.
proof fn lemma_extend_walk(adj: Seq<Seq<usize>>, path: Seq<usize>, nb: usize)
    requires
        is_walk(adj, path),
        adj[path.last() as int].contains(nb),
        nb != step_back(path, path.len() - 1),
        nb < adj.len(),
    ensures
        is_walk(adj, path.push(nb)),
{
    let p2 = path.push(nb);
    assert forall|i: int| 0 <= i < p2.len() - 1 implies #[trigger] step_ok(adj, p2, i) by {
        if i < path.len() - 1 {
            assert(step_ok(adj, path, i));
            assert(p2[i] == path[i] && p2[i + 1] == path[i + 1]);
            assert(step_back(p2, i) == step_back(path, i));
        } else {
            assert(p2[i] == path.last() && p2[i + 1] == nb);
            assert(step_back(p2, i) == step_back(path, path.len() - 1));
        }
    }
    assert forall|i: int| 0 <= i < p2.len() implies (#[trigger] p2[i]) < adj.len() by {
        if i < path.len() {
            assert(p2[i] == path[i]);
        }
    }
}

/// A prefix of a walk is a walk.
proof fn lemma_walk_prefix(adj: Seq<Seq<usize>>, w: Seq<usize>, l: int)
    requires
        is_walk(adj, w),
        1 <= l <= w.len(),
    ensures
        is_walk(adj, w.take(l)),
{
    let p = w.take(l);
    assert forall|i: int| 0 <= i < p.len() - 1 implies #[trigger] step_ok(adj, p, i) by {
        assert(step_ok(adj, w, i));
        assert(p[i] == w[i] && p[i + 1] == w[i + 1]);
        assert(step_back(p, i) == step_back(w, i));
    }
    assert forall|i: int| 0 <= i < p.len() implies (#[trigger] p[i]) < adj.len() by {
        assert(p[i] == w[i]);
    }
}

/// Handling more neighbors only adds reported pairs.
proof fn lemma_list_mono(
    adj: Seq<Seq<usize>>,
    bodies: Seq<u64>,
    cur: usize,
    ign: usize,
    depth: nat,
    fuel: nat,
    k1: nat,
    k2: nat,
    x: (u64, u16),
)
    requires
        k1 <= k2,
        visits_list(adj, bodies, cur, ign, depth, fuel, k1).contains(x),
    ensures
        visits_list(adj, bodies, cur, ign, depth, fuel, k2).contains(x),
    decreases k2,
{
    if k1 < k2 {
        lemma_list_mono(adj, bodies, cur, ign, depth, fuel, k1, (k2 - 1) as nat, x);
        let prev = visits_list(adj, bodies, cur, ign, depth, fuel, (k2 - 1) as nat);
        let res = visits_list(adj, bodies, cur, ign, depth, fuel, k2);
        let i = choose|i: int| 0 <= i < prev.len() && prev[i] == x;
        if fuel == 0 {
            assert(prev.len() == 0);
        } else {
            assert(res[i] == prev[i]);
        }
    }
}

/// Every walk extending `path` is reported by the traversal below `path`, given enough fuel.
proof fn lemma_from_complete(
    adj: Seq<Seq<usize>>,
    bodies: Seq<u64>,
    path: Seq<usize>,
    fuel: nat,
    w: Seq<usize>,
)
    requires
        is_walk(adj, w),
        walks_are_paths(adj, w[0]),
        path.len() >= 1,
        w.len() > path.len(),
        w.take(path.len() as int) == path,
        fuel + path.len() >= adj.len() + 1,
    ensures
        visits_from(
            adj,
            bodies,
            path.last(),
            step_back(path, path.len() - 1),
            path.len(),
            fuel,
        ).contains((bodies[w.last() as int], saturate((w.len() - 1) as nat))),
    decreases w.len() - path.len(),
{
    let l = path.len();
    let cur = path.last();
    let ign = step_back(path, l - 1);
    lemma_walk_prefix(adj, w, l as int);
    assert(w.take(l as int) == path);
    assert(path[0] == w[0]);
    assert(path.no_duplicates());
    lemma_path_len_bounded(path, adj.len());
    assert(fuel >= 1);
    let nb = w[l as int];
    assert(step_ok(adj, w, l - 1));
    assert(w[l - 1] == cur);
    assert(step_back(w, l - 1) == ign) by {
        if l - 1 > 0 {
            assert(w[l - 2] == path[l - 2]);
        } else {
            assert(w[0] == path[0]);
        }
    }
    assert(adj[cur as int].contains(nb));
    let j = choose|j: int| 0 <= j < adj[cur as int].len() && adj[cur as int][j] == nb;
    let prev = visits_list(adj, bodies, cur, ign, l, fuel, j as nat);
    let sub = visits_from(adj, bodies, nb, cur, l + 1, (fuel - 1) as nat);
    let blk = visits_list(adj, bodies, cur, ign, l, fuel, (j + 1) as nat);
    assert(blk == prev + seq![(bodies[nb as int], saturate(l))] + sub);
    let target = (bodies[w.last() as int], saturate((w.len() - 1) as nat));
    if w.len() == l + 1 {
        assert(blk[prev.len() as int] == target);
    } else {
        let p2 = path.push(nb);
        assert(w.take((l + 1) as int) =~= p2);
        assert(p2.last() == nb && step_back(p2, p2.len() - 1) == cur);
        lemma_from_complete(adj, bodies, p2, (fuel - 1) as nat, w);
        let t = choose|t: int| 0 <= t < sub.len() && sub[t] == target;
        assert(blk[prev.len() + 1 + t] == target);
    }
    lemma_list_mono(adj, bodies, cur, ign, l, fuel, (j + 1) as nat, adj[cur as int].len(), target);
}

impl PartGraph {
    /// Soundness of the traversal: every reported pair names the last body of a walk
    /// along joints leaving the node of `origin`, and that walk's number of joints (saturated).
    pub proof fn lemma_traverse_sound(&self, origin: u64, i: int)
        requires
            self.wf(),
            0 <= i < self.spec_traverse(origin).len(),
        ensures
            exists|w: Seq<usize>|
                #![trigger is_walk(self.adj(), w)]
                is_walk(self.adj(), w) && w.len() >= 2 && Some(w[0]) == self.spec_body_of(origin)
                    && self.bodies@[w.last() as int] == self.spec_traverse(origin)[i].0
                    && self.spec_traverse(origin)[i].1 == saturate((w.len() - 1) as nat),
    {
        let o = self.spec_body_of(origin).unwrap();
        let path = seq![o];
        assert(self.adj().len() == self.bodies.len());
        assert(is_walk(self.adj(), path));
        assert(adj_wf(self.adj()));
        lemma_from_sound(self.adj(), self.bodies@, path, self.bodies.len() as nat);
        assert(path.last() == o && step_back(path, 0) == o);
        assert(walk_witness(self.adj(), self.bodies@, path, self.spec_traverse(origin)[i]));
        let w = choose|w: Seq<usize>|
            #![trigger is_walk(self.adj(), w)]
            is_walk(self.adj(), w) && w.len() > path.len() && w.take(path.len() as int) == path
                && self.bodies@[w.last() as int] == self.spec_traverse(origin)[i].0
                && self.spec_traverse(origin)[i].1 == saturate((w.len() - 1) as nat);
        assert(w[0] == w.take(1)[0]);
    }

    /// Completeness of the traversal: the last body of every walk along joints leaving the node
    /// of `origin` is reported, together with the walk's number of joints (saturated).
    pub proof fn lemma_traverse_complete(&self, origin: u64, w: Seq<usize>)
        requires
            self.wf(),
            self.traversable_from(origin),
            is_walk(self.adj(), w),
            w.len() >= 2,
            Some(w[0]) == self.spec_body_of(origin),
        ensures
            self.spec_traverse(origin).contains(
                (self.bodies@[w.last() as int], saturate((w.len() - 1) as nat)),
            ),
    {
        let o = w[0];
        assert(self.adj().len() == self.bodies.len());
        assert(self.bodies[o as int] == origin);
        let path = seq![o];
        assert(w.take(1) =~= path);
        assert(path.last() == o && step_back(path, 0) == o);
        lemma_from_complete(self.adj(), self.bodies@, path, self.bodies.len() as nat, w);
    }
}

/// Largest distance in joints between a part and a heart within which the part stays alive.
pub const MAX_HEART_DIST: u16 = 3;

/// Some reported pair is at most [`MAX_HEART_DIST`] joints away and names a heart.
pub open spec fn reaches_heart(visits: Seq<(u64, u16)>, hearts: Seq<u64>) -> bool {
    exists|i: int|
        0 <= i < visits.len() && visits[i].1 <= MAX_HEART_DIST && #[trigger] hearts.contains(
            visits[i].0,
        )
}

impl PartGraph {
    /// Returns whether a heart (a body listed in `hearts`) is within [`MAX_HEART_DIST`] joints of
    /// `part`, counting only parts other than `part` itself.
    ///
    /// A part that is not a heart dies when this is false.
    pub fn heart_within_reach(&self, part: u64, hearts: &Vec<u64>) -> (r: bool)
        requires
            self.wf(),
            self.traversable_from(part),
        ensures
            r == reaches_heart(self.spec_traverse(part), hearts@),
    {
        let visits = self.traverse_connected(part);
        let mut i: usize = 0;
        while i < visits.len()
            invariant
                visits@ == self.spec_traverse(part),
                i <= visits.len(),
                forall|t: int|
                    0 <= t < i ==> !(visits@[t].1 <= MAX_HEART_DIST && hearts@.contains(
                        visits@[t].0,
                    )),
            decreases visits.len() - i,
        {
            let (body, depth) = visits[i];
            if depth <= MAX_HEART_DIST {
                let mut j: usize = 0;
                while j < hearts.len()
                    invariant
                        visits@ == self.spec_traverse(part),
                        i < visits.len(),
                        body == visits@[i as int].0,
                        depth == visits@[i as int].1,
                        depth <= MAX_HEART_DIST,
                        forall|t: int|
                            0 <= t < i ==> !(visits@[t].1 <= MAX_HEART_DIST && hearts@.contains(
                                visits@[t].0,
                            )),
                        j <= hearts.len(),
                        forall|t: int| 0 <= t < j ==> hearts@[t] != body,
                    decreases hearts.len() - j,
                {
                    if hearts[j] == body {
                        assert(hearts@[j as int] == visits@[i as int].0);
                        assert(hearts@.contains(visits@[i as int].0));
                        return true;
                    }
                    j += 1;
                }
                assert(!hearts@.contains(body));
            }
            i += 1;
        }
        proof {
            if reaches_heart(self.spec_traverse(part), hearts@) {
                let t = choose|t: int|
                    0 <= t < visits@.len() && visits@[t].1 <= MAX_HEART_DIST
                        && #[trigger] hearts@.contains(visits@[t].0);
                assert(!(visits@[t].1 <= MAX_HEART_DIST && hearts@.contains(visits@[t].0)));
            }
        }
        false
    }

    /// Lists `part` followed by every body that the traversal from `part` reaches.
    pub fn connected_parts(&self, part: u64) -> (parts: Vec<u64>)
        requires
            self.wf(),
            self.traversable_from(part),
        ensures
            parts@ == seq![part] + self.spec_traverse(part).map_values(|v: (u64, u16)| v.0),
    {
        let visits = self.traverse_connected(part);
        let mut parts: Vec<u64> = Vec::new();
        parts.push(part);
        let mut i: usize = 0;
        while i < visits.len()
            invariant
                visits@ == self.spec_traverse(part),
                i <= visits.len(),
                parts@ == seq![part] + visits@.take(i as int).map_values(|v: (u64, u16)| v.0),
            decreases visits.len() - i,
        {
            parts.push(visits[i].0);
            i += 1;
            assert(visits@.take(i as int) =~= visits@.take(i - 1).push(visits@[i - 1]));
            assert(parts@ =~= seq![part] + visits@.take(i as int).map_values(|v: (u64, u16)| v.0));
        }
        assert(visits@.take(visits.len() as int) =~= visits@);
        parts
    }

    /// A part stays alive exactly when a heart lies at the end of some walk of one to
    /// [`MAX_HEART_DIST`] joints leaving it.
    pub proof fn lemma_heart_reach_is_walk(&self, part: u64, hearts: Seq<u64>)
        requires
            self.wf(),
            self.traversable_from(part),
            self.spec_body_of(part) is Some,
        ensures
            reaches_heart(self.spec_traverse(part), hearts) <==> exists|w: Seq<usize>|
                #![trigger is_walk(self.adj(), w)]
                is_walk(self.adj(), w) && Some(w[0]) == self.spec_body_of(part) && 2 <= w.len()
                    <= MAX_HEART_DIST + 1 && hearts.contains(self.bodies@[w.last() as int]),
    {
        let visits = self.spec_traverse(part);
        if reaches_heart(visits, hearts) {
            let i = choose|i: int|
                0 <= i < visits.len() && visits[i].1 <= MAX_HEART_DIST && #[trigger] hearts.contains(
                    visits[i].0,
                );
            self.lemma_traverse_sound(part, i);
            let w = choose|w: Seq<usize>|
                #![trigger is_walk(self.adj(), w)]
                is_walk(self.adj(), w) && w.len() >= 2 && Some(w[0]) == self.spec_body_of(part)
                    && self.bodies@[w.last() as int] == visits[i].0 && visits[i].1 == saturate(
                    (w.len() - 1) as nat,
                );
            assert(is_walk(self.adj(), w) && Some(w[0]) == self.spec_body_of(part) && 2 <= w.len()
                <= MAX_HEART_DIST + 1 && hearts.contains(self.bodies@[w.last() as int]));
        }
        if exists|w: Seq<usize>|
            #![trigger is_walk(self.adj(), w)]
            is_walk(self.adj(), w) && Some(w[0]) == self.spec_body_of(part) && 2 <= w.len()
                <= MAX_HEART_DIST + 1 && hearts.contains(self.bodies@[w.last() as int]) {
            let w = choose|w: Seq<usize>|
                #![trigger is_walk(self.adj(), w)]
                is_walk(self.adj(), w) && Some(w[0]) == self.spec_body_of(part) && 2 <= w.len()
                    <= MAX_HEART_DIST + 1 && hearts.contains(self.bodies@[w.last() as int]);
            self.lemma_traverse_complete(part, w);
            let x = (self.bodies@[w.last() as int], saturate((w.len() - 1) as nat));
            let i = choose|i: int| 0 <= i < visits.len() && visits[i] == x;
            assert(visits[i].1 <= MAX_HEART_DIST && hearts.contains(visits[i].0));
        }
    }
}

/// A sequence of distinct node indices below `n` has at most `n` elements.
proof fn lemma_path_len_bounded(w: Seq<usize>, n: nat)
    requires
        w.no_duplicates(),
        forall|i: int| 0 <= i < w.len() ==> (#[trigger] w[i]) < n,
    ensures
        w.len() <= n,
{
    let wi = w.map_values(|x: usize| x as int);
    assert(wi.no_duplicates()) by {
        assert forall|i: int, j: int| 0 <= i < wi.len() && 0 <= j < wi.len() && i != j implies wi[i]
            != wi[j] by {
            assert(w[i] != w[j]);
        }
    }
    wi.unique_seq_to_set();
    vstd::set_lib::lemma_int_range(0, n as int);
    assert(wi.to_set().subset_of(vstd::set_lib::set_int_range(0, n as int))) by {
        assert forall|x: int| wi.to_set().contains(x) implies vstd::set_lib::set_int_range(
            0,
            n as int,
        ).contains(x) by {
            let i = choose|i: int| 0 <= i < wi.len() && wi[i] == x;
            assert(w[i] < n);
        }
    }
    vstd::set_lib::lemma_len_subset(wi.to_set(), vstd::set_lib::set_int_range(0, n as int));
}


/// `w` is a non-empty route along joints of `adj`, which may turn back.
pub open spec fn is_route(adj: Seq<Seq<usize>>, w: Seq<usize>) -> bool {
    &&& w.len() >= 1
    &&& forall|i: int| 0 <= i < w.len() ==> (#[trigger] w[i]) < adj.len()
    &&& forall|i: int| 0 <= i < w.len() - 1 ==> #[trigger] adj[w[i] as int].contains(w[i + 1])
}

/// Some route along joints of `adj` leads from node `x` to node `y`: they are parts of one
/// creature.
pub open spec fn reaches(adj: Seq<Seq<usize>>, x: usize, y: usize) -> bool {
    exists|w: Seq<usize>| #[trigger] is_route(adj, w) && w[0] == x && w.last() == y
}

/// No joint joins a part to itself.
pub open spec fn no_self_joints(adj: Seq<Seq<usize>>) -> bool {
    forall|x: int| 0 <= x < adj.len() ==> !(#[trigger] adj[x]).contains(x as usize)
}

/// Every walk from every node is a path: every creature's parts with their joints form a tree.
pub open spec fn is_forest(adj: Seq<Seq<usize>>) -> bool {
    forall|x: usize| x < adj.len() ==> #[trigger] walks_are_paths(adj, x)
}

/// The graph `adj` with a new joint between the nodes `a` and `b`.
pub open spec fn with_joint(adj: Seq<Seq<usize>>, a: usize, b: usize) -> Seq<Seq<usize>> {
    Seq::new(
        adj.len(),
        |i: int|
            if i == a {
                adj[i].push(b)
            } else if i == b {
                adj[i].push(a)
            } else {
                adj[i]
            },
    )
}

/// A pushed sequence contains the old elements and the new one.
proof fn lemma_push_contains(s: Seq<usize>, v: usize, x: usize)
    ensures
        s.push(v).contains(x) == (s.contains(x) || x == v),
{
    if s.push(v).contains(x) {
        let k = choose|k: int| 0 <= k < s.push(v).len() && s.push(v)[k] == x;
        if k < s.len() {
            assert(s[k] == x);
        }
    }
    if s.contains(x) {
        let k = choose|k: int| 0 <= k < s.len() && s[k] == x;
        assert(s.push(v)[k] == x);
    }
    if x == v {
        assert(s.push(v)[s.len() as int] == x);
    }
}

/// The first repetition in `w`: positions `i < j` holding one node, with no repetition before
/// `j`.
proof fn first_repeat(w: Seq<usize>) -> (r: (int, int))
    requires
        !w.no_duplicates(),
    ensures
        0 <= r.0 < r.1 < w.len(),
        w[r.0] == w[r.1],
        forall|p: int, q: int| 0 <= p < q < r.1 ==> w[p] != w[q],
    decreases w.len(),
{
    let d = w.drop_last();
    if !d.no_duplicates() {
        let r = first_repeat(d);
        assert(d[r.0] == w[r.0] && d[r.1] == w[r.1]);
        assert forall|p: int, q: int| 0 <= p < q < r.1 implies w[p] != w[q] by {
            assert(d[p] != d[q]);
        }
        r
    } else {
        let (p, q) = choose|p: int, q: int| 0 <= p < w.len() && 0 <= q < w.len() && p != q && w[p] == w[q];
        if p < w.len() - 1 && q < w.len() - 1 {
            assert(d[p] == d[q]);
        }
        let r = if p < q {
            (p, q)
        } else {
            (q, p)
        };
        assert forall|x: int, y: int| 0 <= x < y < r.1 implies w[x] != w[y] by {
            assert(d[x] != d[y]);
        }
        r
    }
}

/// Every walk of the joined graph is a path when `a` and `b` lie in different trees of a forest.
proof fn lemma_no_cycle_through_joint(adj: Seq<Seq<usize>>, a: usize, b: usize, w: Seq<usize>)
    requires
        a < adj.len(),
        b < adj.len(),
        no_self_joints(adj),
        is_forest(adj),
        !reaches(adj, a, b),
        !reaches(adj, b, a),
        is_walk(with_joint(adj, a, b), w),
    ensures
        w.no_duplicates(),
{
    if !w.no_duplicates() {
        let adj2 = with_joint(adj, a, b);
        assert(is_route(adj, seq![a]));
        assert(a != b);
        let (i, j) = first_repeat(w);
        let c = w.subrange(i, j + 1);
        let n = j - i;
        assert forall|k: int| 0 <= k <= n implies c[k] == w[i + k] && c[k] < adj.len() by {
            assert(w[i + k] < adj2.len());
        }
        assert(c[0] == c[n]);
        assert forall|p: int, q: int| 0 <= p < q < n implies c[p] != c[q] by {
            assert(c[p] == w[i + p] && c[q] == w[i + q]);
        }
        // Every step of `c` follows a joint of the joined graph, and none turns straight back.
        assert forall|k: int| 0 <= k < n implies #[trigger] adj2[c[k] as int].contains(c[k + 1]) by {
            assert(step_ok(adj2, w, i + k));
        }
        assert forall|k: int| 1 <= k < n implies c[k + 1] != #[trigger] c[k - 1] by {
            assert(step_ok(adj2, w, i + k));
        }
        if forall|k: int| 0 <= k < n ==> #[trigger] adj[c[k] as int].contains(c[k + 1]) {
            // `c` is a closed walk of the forest itself.
            assert(adj[c[0] as int].contains(c[1]));
            assert(!adj[c[0] as int].contains(c[0]));
            assert forall|k: int| 0 <= k < c.len() - 1 implies #[trigger] step_ok(adj, c, k) by {
                assert(adj[c[k] as int].contains(c[k + 1]));
                if k >= 1 {
                    assert(c[k + 1] != c[k - 1]);
                }
            }
            assert(is_walk(adj, c));
            assert(walks_are_paths(adj, c[0]));
            assert(c[0] == c[n]);
        } else {
            let s = choose|k: int| 0 <= k < n && !adj[c[k] as int].contains(c[k + 1]);
            // Step `s` is the new joint.
            assert forall|k: int| 0 <= k < n && !adj[c[k] as int].contains(c[k + 1]) implies (c[k] == a && c[k + 1]
                == b) || (c[k] == b && c[k + 1] == a) by {
                lemma_push_contains(adj[a as int], b, c[k + 1]);
                lemma_push_contains(adj[b as int], a, c[k + 1]);
                assert(adj2[c[k] as int].contains(c[k + 1]));
            }
            // It is the only step along the new joint.
            assert forall|k: int| 0 <= k < n && k != s implies #[trigger] adj[c[k] as int].contains(c[k + 1]) by {
                if !adj[c[k] as int].contains(c[k + 1]) {
                    if k + 1 < n && s + 1 < n {
                    } else if k + 1 == n {
                        assert(c[k + 1] == c[0]);
                    } else {
                        assert(c[s + 1] == c[0]);
                    }
                    if k == s + 1 {
                        assert(c[k + 1] != c[k - 1]);
                    }
                    if s == k + 1 {
                        assert(c[s + 1] != c[s - 1]);
                    }
                    if k == 0 && s + 1 == n && s >= 1 {
                        assert(c[s] != c[0]);
                    }
                    if s == 0 && k + 1 == n && k >= 1 {
                        assert(c[k] != c[0]);
                    }
                }
            }
            // The rest of `c` is a route of the forest between the two ends of the new joint.
            let r = c.subrange(s + 1, n + 1) + c.subrange(1, s + 1);
            assert(r.len() == n);
            assert forall|t: int| 0 <= t < r.len() implies (#[trigger] r[t]) < adj.len() by {
                if t < n - s {
                    assert(r[t] == c[s + 1 + t]);
                } else {
                    assert(r[t] == c[t - (n - s) + 1]);
                }
            }
            assert forall|t: int| 0 <= t < r.len() - 1 implies #[trigger] adj[r[t] as int].contains(r[t + 1]) by {
                if t + 1 < n - s {
                    assert(r[t] == c[s + 1 + t] && r[t + 1] == c[s + 2 + t]);
                    assert(adj[c[s + 1 + t] as int].contains(c[s + 1 + t + 1]));
                } else if t + 1 == n - s {
                    assert(r[t] == c[n] && r[t + 1] == c[1]);
                    assert(adj[c[0] as int].contains(c[1]));
                } else {
                    let u = t - (n - s) + 1;
                    assert(r[t] == c[u] && r[t + 1] == c[u + 1]);
                    assert(adj[c[u] as int].contains(c[u + 1]));
                }
            }
            assert(is_route(adj, r));
            assert(r[0] == c[s + 1]);
            if s >= 1 {
                assert(r.last() == c[s]);
            } else {
                assert(r.last() == c[n]);
            }
            if c[s] == a {
                assert(reaches(adj, b, a));
            } else {
                assert(reaches(adj, a, b));
            }
        }
    }
}

/// Connecting two parts of different creatures keeps every creature a tree: when the graph is a
/// forest without joints of a part to itself, and neither `a` nor `b` reaches the other, the
/// graph with a new joint between them is still a forest.
pub proof fn lemma_joint_between_trees(adj: Seq<Seq<usize>>, a: usize, b: usize)
    requires
        a < adj.len(),
        b < adj.len(),
        no_self_joints(adj),
        is_forest(adj),
        !reaches(adj, a, b),
        !reaches(adj, b, a),
    ensures
        is_forest(with_joint(adj, a, b)),
        no_self_joints(with_joint(adj, a, b)),
{
    let adj2 = with_joint(adj, a, b);
    assert(is_route(adj, seq![a]));
    assert forall|x: usize| x < adj2.len() implies #[trigger] walks_are_paths(adj2, x) by {
        assert forall|w: Seq<usize>| #[trigger] is_walk(adj2, w) && w[0] == x implies w.no_duplicates() by {
            lemma_no_cycle_through_joint(adj, a, b, w);
        }
    }
    assert forall|x: int| 0 <= x < adj2.len() implies !(#[trigger] adj2[x]).contains(x as usize) by {
        lemma_push_contains(adj[a as int], b, x as usize);
        lemma_push_contains(adj[b as int], a, x as usize);
    }
}


/// Every joint of `sub` is a joint of `adj`, over the same nodes.
pub open spec fn is_subgraph(sub: Seq<Seq<usize>>, adj: Seq<Seq<usize>>) -> bool {
    &&& sub.len() == adj.len()
    &&& forall|x: int, y: usize| 0 <= x < sub.len() && #[trigger] sub[x].contains(y) ==> adj[x].contains(y)
}

/// Disconnecting parts keeps every creature a tree: taking joints away from a forest leaves a
/// forest.
pub proof fn lemma_fewer_joints_keep_forest(sub: Seq<Seq<usize>>, adj: Seq<Seq<usize>>)
    requires
        is_subgraph(sub, adj),
        is_forest(adj),
    ensures
        is_forest(sub),
{
    assert forall|x: usize| x < sub.len() implies #[trigger] walks_are_paths(sub, x) by {
        assert forall|w: Seq<usize>| #[trigger] is_walk(sub, w) && w[0] == x implies w.no_duplicates() by {
            assert forall|i: int| 0 <= i < w.len() - 1 implies #[trigger] step_ok(adj, w, i) by {
                assert(step_ok(sub, w, i));
                assert(sub[w[i] as int].contains(w[i + 1]));
            }
            assert(is_walk(adj, w));
            assert(walks_are_paths(adj, x));
        }
    }
}


/// Joints go both ways: a joint listed at `x` towards `y` is also listed at `y` towards `x`.
pub open spec fn symmetric(adj: Seq<Seq<usize>>) -> bool {
    forall|x: int, y: usize| 0 <= x < adj.len() && #[trigger] adj[x].contains(y) ==> adj[y as int].contains(x as usize)
}

/// No two joints join the same two parts: no node lists a neighbor twice.
pub open spec fn simple(adj: Seq<Seq<usize>>) -> bool {
    forall|x: int| 0 <= x < adj.len() ==> (#[trigger] adj[x]).no_duplicates()
}

/// In a graph whose walks from the start are paths and whose joints go both ways, two walks
/// that share their first `l` nodes and then part ways never end at the same node.
proof fn lemma_branches_end_apart(adj: Seq<Seq<usize>>, w1: Seq<usize>, w2: Seq<usize>, l: int)
    requires
        symmetric(adj),
        is_walk(adj, w1),
        is_walk(adj, w2),
        walks_are_paths(adj, w1[0]),
        1 <= l,
        w1.len() > l,
        w2.len() > l,
        w1.take(l) == w2.take(l),
        w1[l] != w2[l],
    ensures
        w1.last() != w2.last(),
    decreases w1.len() + w2.len(),
{
    let n1 = w1.len() as int;
    let n2 = w2.len() as int;
    assert(w1[0] == w1.take(l)[0] && w2[0] == w2.take(l)[0]);
    assert(w1[l - 1] == w1.take(l)[l - 1] && w2[l - 1] == w2.take(l)[l - 1]);
    let cur = w1[l - 1];
    assert(w1.no_duplicates());
    assert(w2.no_duplicates());
    if w1.last() == w2.last() && (n1 > l + 1 || n2 > l + 1) {
        let a = w1[n1 - 2];
        let b = w2[n2 - 2];
        if a == b {
            if n1 > l + 1 && n2 > l + 1 {
                let d1 = w1.drop_last();
                let d2 = w2.drop_last();
                lemma_walk_prefix(adj, w1, n1 - 1);
                lemma_walk_prefix(adj, w2, n2 - 1);
                assert(d1 =~= w1.take(n1 - 1));
                assert(d2 =~= w2.take(n2 - 1));
                assert(d1.take(l) =~= w1.take(l));
                assert(d2.take(l) =~= w2.take(l));
                assert(d1[0] == w1[0]);
                lemma_branches_end_apart(adj, d1, d2, l);
            } else if n1 == l + 1 {
                assert(w2[n2 - 2] == cur && w2[l - 1] == cur);
            } else {
                assert(w1[n1 - 2] == cur && w1[l - 1] == cur);
            }
        } else {
            // Go out along `w1`, then back along `w2` to the node where they parted.
            let r = Seq::new((n2 - l) as nat, |t: int| w2[n2 - 2 - t]);
            let w = w1 + r;
            assert(w.len() == n1 + n2 - l);
            assert forall|i: int| 0 <= i < w.len() implies (#[trigger] w[i]) < adj.len() by {
                if i < n1 {
                    assert(w[i] == w1[i]);
                } else {
                    assert(w[i] == w2[n2 - 2 - (i - n1)]);
                }
            }
            assert forall|i: int| 0 <= i < w.len() - 1 implies #[trigger] step_ok(adj, w, i) by {
                if i < n1 - 1 {
                    assert(step_ok(adj, w1, i));
                    assert(w[i] == w1[i] && w[i + 1] == w1[i + 1]);
                    if i > 0 {
                        assert(w[i - 1] == w1[i - 1]);
                    }
                } else if i == n1 - 1 {
                    assert(w[i] == w1[n1 - 1] && w[i + 1] == w2[n2 - 2] && w[i - 1] == w1[n1 - 2]);
                    assert(step_ok(adj, w2, n2 - 2));
                    assert(adj[w2[n2 - 2] as int].contains(w2[n2 - 1]));
                } else {
                    let t = i - n1;
                    let q = n2 - 2 - t;
                    assert(w[i] == w2[q] && w[i + 1] == w2[q - 1]);
                    assert(step_ok(adj, w2, q - 1));
                    assert(adj[w2[q - 1] as int].contains(w2[q]));
                    if t == 0 {
                        assert(w[i - 1] == w1[n1 - 1]);
                        assert(w2[q + 1] == w2[n2 - 1]);
                    } else {
                        assert(w[i - 1] == w2[q + 1]);
                    }
                    assert(step_ok(adj, w2, q));
                }
            }
            assert(is_walk(adj, w));
            assert(w[0] == w1[0]);
            assert(w[l - 1] == cur);
            assert(w[w.len() - 1] == w2[l - 1]);
        }
    }
}


/// `x` is the last body of some walk extending `path` whose next step goes to one of the first
/// `k` neighbors of the last node of `path`.
pub open spec fn branch_witness(adj: Seq<Seq<usize>>, bodies: Seq<u64>, path: Seq<usize>, k: nat, x: u64) -> bool {
    exists|w: Seq<usize>|
        #![trigger is_walk(adj, w)]
        is_walk(adj, w) && w.len() > path.len() && w.take(path.len() as int) == path && bodies[w.last() as int]
            == x && adj[path.last() as int].take(k as int).contains(w[path.len() as int])
}

/// On a forest of simple, two-way joints with distinct bodies, the traversal below `path` over
/// the first `k` neighbors reports each body at most once, never a body of `path`, and each
/// one at the end of a walk through one of those neighbors.
proof fn lemma_list_distinct(adj: Seq<Seq<usize>>, bodies: Seq<u64>, path: Seq<usize>, fuel: nat, k: nat)
    requires
        adj_wf(adj),
        symmetric(adj),
        simple(adj),
        bodies.len() == adj.len(),
        bodies.no_duplicates(),
        is_walk(adj, path),
        walks_are_paths(adj, path[0]),
        k <= adj[path.last() as int].len(),
    ensures
        ({
            let v = visits_list(adj, bodies, path.last(), step_back(path, path.len() - 1), path.len(), fuel, k);
            &&& forall|i: int| 0 <= i < v.len() ==> branch_witness(adj, bodies, path, k, #[trigger] v[i].0)
            &&& forall|i: int, j: int| 0 <= i < j < v.len() ==> #[trigger] v[i].0 != #[trigger] v[j].0
            &&& forall|i: int, s: int| 0 <= i < v.len() && 0 <= s < path.len() ==> #[trigger] v[i].0 != bodies[#[trigger] path[s] as int]
        }),
    decreases fuel, k,
{
    let cur = path.last();
    let ign = step_back(path, path.len() - 1);
    let l = path.len();
    let res = visits_list(adj, bodies, cur, ign, l, fuel, k);
    assert(path.no_duplicates());
    if k == 0 || fuel == 0 {
    } else {
        lemma_list_distinct(adj, bodies, path, fuel, (k - 1) as nat);
        let prev = visits_list(adj, bodies, cur, ign, l, fuel, (k - 1) as nat);
        let nb = adj[cur as int][k - 1];
        // What the first `k - 1` neighbors witness, the first `k` do too.
        assert forall|x: u64| branch_witness(adj, bodies, path, (k - 1) as nat, x) implies branch_witness(
            adj,
            bodies,
            path,
            k,
            x,
        ) by {
            let w = choose|w: Seq<usize>|
                #![trigger is_walk(adj, w)]
                is_walk(adj, w) && w.len() > path.len() && w.take(path.len() as int) == path
                    && bodies[w.last() as int] == x && adj[cur as int].take(k - 1).contains(w[l as int]);
            let tk = adj[cur as int].take(k - 1);
            let t = choose|t: int| 0 <= t < k - 1 && #[trigger] tk[t] == w[l as int];
            assert(adj[cur as int].take(k as int)[t] == w[l as int]);
        }
        if nb != ign {
            assert(nb < adj.len());
            assert(adj[cur as int].contains(nb)) by {
                assert(adj[cur as int][k - 1] == nb);
            }
            let p2 = path.push(nb);
            lemma_extend_walk(adj, path, nb);
            assert(p2[0] == path[0]);
            assert(p2.no_duplicates());
            assert(p2.last() == nb && step_back(p2, p2.len() - 1) == cur);
            lemma_list_distinct(adj, bodies, p2, (fuel - 1) as nat, adj[nb as int].len());
            let sub = visits_from(adj, bodies, nb, cur, l + 1, (fuel - 1) as nat);
            assert(sub == visits_list(adj, bodies, nb, cur, l + 1, (fuel - 1) as nat, adj[nb as int].len()));
            assert(res == prev + seq![(bodies[nb as int], saturate(l))] + sub);
            assert(p2.take(l as int) =~= path);
            assert(adj[cur as int].take(k as int)[k - 1] == nb);
            // Every body of `sub` ends a walk through `nb`.
            assert forall|x: u64| branch_witness(adj, bodies, p2, adj[nb as int].len(), x) implies exists|w: Seq<usize>|
                #![trigger is_walk(adj, w)]
                is_walk(adj, w) && w.len() > l && w.take(l as int) == path && bodies[w.last() as int] == x
                    && w[l as int] == nb by {
                let w = choose|w: Seq<usize>|
                    #![trigger is_walk(adj, w)]
                    is_walk(adj, w) && w.len() > p2.len() && w.take(p2.len() as int) == p2
                        && bodies[w.last() as int] == x && adj[nb as int].take(adj[nb as int].len() as int).contains(
                        w[p2.len() as int],
                    );
                assert(w.take(l as int) =~= path) by {
                    assert forall|t: int| 0 <= t < l implies w[t] == path[t] by {
                        assert(w.take(p2.len() as int)[t] == p2[t]);
                    }
                }
                assert(w[l as int] == w.take(p2.len() as int)[l as int]);
            }
            // Bodies of `prev` end walks through earlier neighbors, so they differ from those
            // through `nb`.
            assert forall|i: int, w2: Seq<usize>|
                0 <= i < prev.len() && #[trigger] is_walk(adj, w2) && w2.len() > l && w2.take(l as int) == path && w2[l as int] == nb
                    implies #[trigger] prev[i].0 != bodies[w2.last() as int] by {
                assert(branch_witness(adj, bodies, path, (k - 1) as nat, prev[i].0));
                let w = choose|w: Seq<usize>|
                    #![trigger is_walk(adj, w)]
                    is_walk(adj, w) && w.len() > path.len() && w.take(path.len() as int) == path
                        && bodies[w.last() as int] == prev[i].0 && adj[cur as int].take(k - 1).contains(w[l as int]);
                let tk = adj[cur as int].take(k - 1);
                let t = choose|t: int| 0 <= t < k - 1 && #[trigger] tk[t] == w[l as int];
                assert(adj[cur as int][t] == w[l as int]);
                assert(adj[cur as int].no_duplicates());
                assert(w[l as int] != nb);
                assert(w[0] == w.take(l as int)[0]);
                assert(path[0] == w.take(l as int)[0]);
                lemma_branches_end_apart(adj, w, w2, l as int);
                assert(w.last() < bodies.len() && w2.last() < bodies.len());
            }
            assert forall|i: int| 0 <= i < res.len() implies branch_witness(adj, bodies, path, k, #[trigger] res[i].0) by {
                if i < prev.len() {
                    assert(res[i] == prev[i]);
                } else if i == prev.len() {
                    assert(res[i].0 == bodies[nb as int]);
                    assert(is_walk(adj, p2));
                    assert(adj[cur as int].take(k as int).contains(p2[l as int]));
                } else {
                    assert(res[i] == sub[i - prev.len() - 1]);
                    let x = res[i].0;
                    assert(branch_witness(adj, bodies, p2, adj[nb as int].len(), x));
                    let w = choose|w: Seq<usize>|
                        #![trigger is_walk(adj, w)]
                        is_walk(adj, w) && w.len() > l && w.take(l as int) == path && bodies[w.last() as int] == x
                            && w[l as int] == nb;
                    assert(adj[cur as int].take(k as int).contains(w[l as int]));
                }
            }
            assert forall|i: int, j: int| 0 <= i < j < res.len() implies #[trigger] res[i].0 != #[trigger] res[j].0 by {
                let np = prev.len() as int;
                if j < np {
                    assert(res[i] == prev[i] && res[j] == prev[j]);
                } else if j == np {
                    assert(res[i] == prev[i]);
                    assert(is_walk(adj, p2) && p2.take(l as int) == path && p2[l as int] == nb);
                    assert(res[i].0 != bodies[p2.last() as int]);
                } else if i < np {
                    assert(res[i] == prev[i] && res[j] == sub[j - np - 1]);
                    let x = res[j].0;
                    assert(branch_witness(adj, bodies, p2, adj[nb as int].len(), x));
                    let w = choose|w: Seq<usize>|
                        #![trigger is_walk(adj, w)]
                        is_walk(adj, w) && w.len() > l && w.take(l as int) == path && bodies[w.last() as int] == x
                            && w[l as int] == nb;
                    assert(res[i].0 != bodies[w.last() as int]);
                } else if i == np {
                    assert(res[j] == sub[j - np - 1]);
                    assert(sub[j - np - 1].0 != bodies[p2[l as int] as int]);
                } else {
                    assert(res[i] == sub[i - np - 1] && res[j] == sub[j - np - 1]);
                }
            }
            assert forall|i: int, s: int| 0 <= i < res.len() && 0 <= s < path.len() implies #[trigger] res[i].0
                != bodies[#[trigger] path[s] as int] by {
                let np = prev.len() as int;
                assert(p2[s] == path[s]);
                if i < np {
                    assert(res[i] == prev[i]);
                } else if i == np {
                    assert(p2[l as int] != p2[s]);
                    assert(nb < bodies.len() && path[s] < bodies.len());
                } else {
                    assert(res[i] == sub[i - np - 1]);
                    assert(sub[i - np - 1].0 != bodies[p2[s] as int]);
                }
            }
        } else {
            assert(res == prev);
        }
    }
}

impl PartGraph {
    /// The traversal from `origin` reports each connected part exactly once, and never the
    /// origin itself, when every creature is a tree of simple, two-way joints and no two nodes
    /// share a body. (Every connected part is reported: [`PartGraph::lemma_traverse_complete`].)
    pub proof fn lemma_traverse_once(&self, origin: u64)
        requires
            self.wf(),
            self.traversable_from(origin),
            symmetric(self.adj()),
            simple(self.adj()),
            self.bodies@.no_duplicates(),
        ensures
            forall|i: int, j: int|
                0 <= i < j < self.spec_traverse(origin).len() ==> #[trigger] self.spec_traverse(origin)[i].0
                    != #[trigger] self.spec_traverse(origin)[j].0,
            forall|i: int|
                0 <= i < self.spec_traverse(origin).len() ==> #[trigger] self.spec_traverse(origin)[i].0 != origin,
    {
        let adj = self.adj();
        assert(adj.len() == self.bodies.len());
        assert(adj_wf(adj));
        if let Some(o) = self.spec_body_of(origin) {
            let path = seq![o];
            assert(self.bodies[o as int] == origin);
            assert(walks_are_paths(adj, o));
            assert(is_walk(adj, path));
            assert(path.last() == o && step_back(path, 0) == o && path[0] == o);
            let n = self.bodies.len() as nat;
            lemma_list_distinct(adj, self.bodies@, path, n, adj[o as int].len());
            assert(self.spec_traverse(origin) == visits_list(adj, self.bodies@, o, o, 1, n, adj[o as int].len()));
            assert forall|i: int| 0 <= i < self.spec_traverse(origin).len() implies #[trigger] self.spec_traverse(
                origin,
            )[i].0 != origin by {
                assert(self.spec_traverse(origin)[i].0 != self.bodies@[path[0] as int]);
            }
        }
    }
}

} // verus!
