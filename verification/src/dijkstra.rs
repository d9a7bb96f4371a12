//! The shortest-path engine: multi-source, multi-sink Dijkstra over a
//! caller-defined graph and weight algebra.

use core::marker::PhantomData;
use vstd::prelude::*;

use crate::graph::{Edge, Vertex};
use crate::weight::{fold_weights, lemma_zero_le_fold, Weight};

verus! {

/// The explicit failure outcomes of a shortest-path query.
#[derive(Clone, Copy, Debug, PartialEq, Eq)]
pub enum PathError {
    /// Every start-to-end path, if any, has infinite weight: the end set
    /// is unreachable from the start set.
    NoPathFound,
}

/// A shortest-path engine over a fixed snapshot of a graph.
///
/// The engine owns an arena of vertices; a vertex is identified by its
/// dense, zero-based index in construction order, and edges name their
/// destinations by index. The snapshot is read-only after construction.
pub struct Dijkstra<V, E, W> where V: Vertex<E, W>, E: Edge<W>, W: Weight {
    graph: Vec<V>,
    _marker: PhantomData<(E, W)>,
}

impl<V, E, W> Dijkstra<V, E, W> where V: Vertex<E, W>, E: Edge<W>, W: Weight {
    /// The vertex arena, as a sequence in index order.
    pub closed spec fn vertices(self) -> Seq<V> {
        self.graph@
    }

    /// The outgoing edges of the vertex at index `u`.
    pub open spec fn edges_of(self, u: int) -> Seq<E> {
        self.vertices()[u].s_edges()
    }

    /// The graph has an arc from `u` to `v` of weight `w`.
    pub open spec fn edge_ok(self, u: usize, v: usize, w: W) -> bool {
        &&& (u as int) < self.vertices().len()
        &&& exists|k: int|
            0 <= k < self.edges_of(u as int).len() && (#[trigger] self.edges_of(u as int)[k]).s_to()
                == v && self.edges_of(u as int)[k].s_weight() == w
    }

    /// Every edge of the arena points back into the arena.
    pub open spec fn wf(self) -> bool {
        forall|u: int, k: int|
            0 <= u < self.vertices().len() && 0 <= k < self.edges_of(u).len() ==> (
            #[trigger] self.edges_of(u)[k]).s_to() < self.vertices().len()
    }

    /// `p` walks the graph along existing arcs whose weights are `ws`:
    /// `p` is non-empty, every index is in the arena, and step `i` follows
    /// an arc from `p[i]` to `p[i + 1]` of weight `ws[i]`.
    pub open spec fn is_path(self, p: Seq<usize>, ws: Seq<W>) -> bool {
        &&& p.len() >= 1
        &&& ws.len() == p.len() - 1
        &&& forall|i: int| 0 <= i < p.len() ==> (#[trigger] p[i]) < self.vertices().len()
        &&& forall|i: int| 0 <= i < ws.len() ==> self.edge_ok(p[i], p[i + 1], #[trigger] ws[i])
    }

    /// `p` is a path of weights `ws` leading from a vertex of `starts` to a
    /// vertex of `ends`.
    pub open spec fn connects(
        self,
        starts: Seq<usize>,
        ends: Seq<usize>,
        p: Seq<usize>,
        ws: Seq<W>,
    ) -> bool {
        &&& self.is_path(p, ws)
        &&& starts.contains(p[0])
        &&& ends.contains(p[p.len() - 1])
    }

    /// Builds a graph snapshot: each vertex of `list` is assigned the dense
    /// index of its position, in order. No edge is inspected here.
    pub fn new(list: Vec<V>) -> (d: Self)
        ensures
            d.vertices() == list@,
    {
        Dijkstra { graph: list, _marker: PhantomData }
    }

    /// Finds a minimum-weight path from any vertex of `starts` to any
    /// vertex of `ends`, both given as sets of arena indices. Indices
    /// outside the arena are silently dropped. On success the path (as a
    /// vertex index sequence) and its total weight are returned; when every
    /// start-to-end path, if any, has infinite weight, the query reports
    /// `NoPathFound` instead.
    ///
    /// The frontier is selected by a linear scan over the tentative
    /// weights rather than a priority queue; that changes the asymptotic
    /// running time, not the observable results. Ties between equal
    /// weights are broken arbitrarily, except that a vertex lying in both
    /// sets always yields its single-vertex path.
    #[verifier::loop_isolation(false)]
    #[verifier::rlimit(100)]
    pub fn find_shorted_path(&self, starts: &Vec<usize>, ends: &Vec<usize>) -> (r: Result<
        (Vec<usize>, W),
        PathError,
    >)
        requires
            self.wf(),
        ensures
            (match r {
                Ok(pw) => {
                    &&& exists|ws: Seq<W>|
                        #![auto]
                        self.is_path(pw.0@, ws) && fold_weights(ws) == pw.1
                    &&& starts@.contains(pw.0@[0])
                    &&& ends@.contains(pw.0@[pw.0@.len() - 1])
                    &&& !pw.1.s_is_inf()
                    &&& forall|p2: Seq<usize>, ws2: Seq<W>|
                        #[trigger] self.connects(starts@, ends@, p2, ws2) ==> pw.1.sle(
                            fold_weights(ws2),
                        )
                },
                Err(e) => {
                    &&& e == PathError::NoPathFound
                    &&& forall|p2: Seq<usize>, ws2: Seq<W>|
                        #[trigger] self.connects(starts@, ends@, p2, ws2) ==> fold_weights(
                            ws2,
                        ).s_is_inf()
                },
            }),
            (exists|v: usize|
                #[trigger] starts@.contains(v) && ends@.contains(v) && (v as int)
                    < self.vertices().len()) ==> (r matches Ok(pw) && pw.0@.len() == 1 && pw.1
                == W::s_zero()),
    {
        let n = self.graph.len();

        // A vertex in both sets resolves the query at once: a single-vertex
        // path of weight zero, which no path can undercut.
        let mut si: usize = 0;
        while si < starts.len()
            invariant
                si <= starts@.len(),
                forall|j: int|
                    0 <= j < si ==> !((#[trigger] starts@[j] as int) < n as int && ends@.contains(
                        starts@[j],
                    )),
            decreases starts@.len() - si,
        {
            let s = starts[si];
            if s < n {
                if contains_idx(ends, s) {
                    let mut route: Vec<usize> = Vec::new();
                    route.push(s);
                    let w = W::zero();
                    proof {
                        assert(starts@.contains(starts@[si as int]));
                        assert(route@ =~= seq![s]);
                        assert(self.is_path(route@, Seq::<W>::empty()));
                        assert(fold_weights(Seq::<W>::empty()) == W::s_zero());
                        W::law_zero_finite();
                        assert forall|p2: Seq<usize>, ws2: Seq<W>| #[trigger] self.connects(
                            starts@,
                            ends@,
                            p2,
                            ws2,
                        ) implies w.sle(fold_weights(ws2)) by {
                            lemma_zero_le_fold::<W>(ws2);
                        }
                    }
                    return Ok((route, w));
                }
            }
            si += 1;
        }
        proof {
            assert forall|v: usize|
                !(#[trigger] starts@.contains(v) && ends@.contains(v) && (v as int)
                    < self.vertices().len()) by {
                if starts@.contains(v) && ends@.contains(v) && (v as int) < self.vertices().len() {
                    let j = choose|j: int|
                        0 <= j < starts@.len() && (#[trigger] starts@[j]) == v;
                    assert(!((starts@[j] as int) < n as int && ends@.contains(starts@[j])));
                }
            }
        }

        // Fresh traversal state: every tentative weight starts at infinity,
        // nothing is finalized, backpointers are dummies.
        let mut dist: Vec<W> = Vec::new();
        let mut visited: Vec<bool> = Vec::new();
        let mut back: Vec<usize> = Vec::new();
        let mut i: usize = 0;
        while i < n
            invariant
                i <= n,
                dist@.len() == i as int,
                visited@.len() == i as int,
                back@.len() == i as int,
                forall|j: int| 0 <= j < i ==> #[trigger] dist@[j] == W::s_inf(),
                forall|j: int| 0 <= j < i ==> !(#[trigger] visited@[j]),
            decreases n - i,
        {
            dist.push(W::infinity());
            visited.push(false);
            back.push(0);
            i += 1;
        }
        let ghost mut depth: Seq<int> = Seq::new(self.vertices().len(), |x: int| 0);

        // Known start vertices become zero-weight origins.
        let mut sj: usize = 0;
        while sj < starts.len()
            invariant
                sj <= starts@.len(),
                dist@.len() == n as int,
                forall|j: int|
                    0 <= j < sj && (#[trigger] starts@[j] as int) < n as int ==> dist@[starts@[j]
                        as int] == W::s_zero(),
                forall|v: int|
                    0 <= v < n as int ==> #[trigger] dist@[v] == W::s_inf() || (dist@[v]
                        == W::s_zero() && starts@.contains(v as usize)),
            decreases starts@.len() - sj,
        {
            let s = starts[sj];
            if s < n {
                dist.set(s, W::zero());
                proof {
                    assert(starts@.contains(starts@[sj as int]));
                }
            }
            sj += 1;
        }
        proof {
            W::law_zero_finite();
            W::law_inf_is_inf();
            assert forall|v: usize| #[trigger] starts@.contains(v) && (v as int)
                < n as int implies dist@[v as int] == W::s_zero() && depth[v as int] == 0 by {
                let j = choose|j: int| 0 <= j < starts@.len() && (#[trigger] starts@[j]) == v;
                assert(dist@[starts@[j] as int] == W::s_zero());
            }
            assert(self.inv_core(starts@, ends@, dist@, visited@, back@, depth));
            assert(self.relaxed(dist@, visited@));
        }

        // The relaxation loop: repeatedly finalize the unfinalized vertex
        // of least tentative weight, stopping at the first sought end.
        let mut cur: usize = 0;
        let mut found = false;
        while !found
            invariant
                self.inv_core(starts@, ends@, dist@, visited@, back@, depth),
                self.relaxed(dist@, visited@),
                found ==> ((cur as int) < n as int && ends@.contains(cur) && !dist@[cur
                    as int].s_is_inf() && dist@[cur as int] != W::s_inf() && forall|
                    p2: Seq<usize>,
                    ws2: Seq<W>,
                |
                    #[trigger] self.connects(starts@, ends@, p2, ws2) ==> dist@[cur as int].sle(
                        fold_weights(ws2),
                    )),
            decreases n as int - count_true(visited@), (if found {
                0int
            } else {
                1int
            }),
        {
            // Select the unfinalized vertex with least tentative weight;
            // `n` stands for "none left".
            let mut best: usize = n;
            let mut j: usize = 0;
            while j < n
                invariant
                    j <= n,
                    best == n || ((best as int) < n as int && !visited@[best as int]),
                    best == n ==> forall|v: int| 0 <= v < j ==> #[trigger] visited@[v],
                    best != n ==> forall|v: int|
                        #![trigger dist@[v]]
                        0 <= v < j && !visited@[v] ==> dist@[best as int].sle(dist@[v]),
                decreases n - j,
            {
                if !visited[j] {
                    if best == n {
                        best = j;
                        proof {
                            W::law_refl(dist@[j as int]);
                        }
                    } else if !(dist[best].le(&dist[j])) {
                        proof {
                            W::law_total(dist@[best as int], dist@[j as int]);
                            assert forall|v: int|
                                #![trigger dist@[v]]
                                0 <= v < j && !visited@[v] implies dist@[j as int].sle(
                                dist@[v],
                            ) by {
                                W::law_trans(dist@[j as int], dist@[best as int], dist@[v]);
                            }
                            W::law_refl(dist@[j as int]);
                        }
                        best = j;
                    }
                }
                j += 1;
            }

            if best == n {
                // Everything reachable is finalized and no end was met: no
                // start-to-end path exists at all.
                proof {
                    assert forall|p2: Seq<usize>, ws2: Seq<W>| #[trigger] self.connects(
                        starts@,
                        ends@,
                        p2,
                        ws2,
                    ) implies fold_weights(ws2).s_is_inf() by {
                        let last = p2[p2.len() - 1];
                        assert((last as int) < n as int);
                        assert(visited@[last as int]);
                        assert(!ends@.contains(last));
                        assert(false);
                    }
                }
                return Err(PathError::NoPathFound);
            }

            if dist[best].is_infinity() {
                // The least unfinalized weight is already infinite: every
                // start-to-end path must pass an unfinalized vertex, so its
                // weight is infinite too.
                proof {
                    assert forall|p2: Seq<usize>, ws2: Seq<W>| #[trigger] self.connects(
                        starts@,
                        ends@,
                        p2,
                        ws2,
                    ) implies fold_weights(ws2).s_is_inf() by {
                        let last = p2[p2.len() - 1];
                        assert((last as int) < n as int);
                        if visited@[last as int] {
                            assert(!ends@.contains(last));
                            assert(false);
                        }
                        self.lemma_frontier_min(
                            starts@,
                            ends@,
                            dist@,
                            visited@,
                            back@,
                            depth,
                            best as int,
                            p2,
                            ws2,
                        );
                        if !fold_weights(ws2).s_is_inf() {
                            W::law_inf_strict(dist@[best as int], fold_weights(ws2));
                            assert(false);
                        }
                    }
                }
                return Err(PathError::NoPathFound);
            }

            if contains_idx(ends, best) {
                // The first finalized end vertex carries the least weight
                // over all start-to-end paths.
                proof {
                    assert forall|p2: Seq<usize>, ws2: Seq<W>| #[trigger] self.connects(
                        starts@,
                        ends@,
                        p2,
                        ws2,
                    ) implies dist@[best as int].sle(fold_weights(ws2)) by {
                        let last = p2[p2.len() - 1];
                        assert((last as int) < n as int);
                        if visited@[last as int] {
                            assert(!ends@.contains(last));
                            assert(false);
                        }
                        self.lemma_frontier_min(
                            starts@,
                            ends@,
                            dist@,
                            visited@,
                            back@,
                            depth,
                            best as int,
                            p2,
                            ws2,
                        );
                    }
                    W::law_inf_is_inf();
                }
                cur = best;
                found = true;
                continue ;
            }

            // Finalize `best`: its weight undercuts every start-rooted path
            // to it, by the greedy argument.
            proof {
                assert forall|p: Seq<usize>, ws: Seq<W>| #[trigger] self.is_path(p, ws)
                    && starts@.contains(p[0]) && p[p.len() - 1] == best implies dist@[best
                    as int].sle(fold_weights(ws)) by {
                    self.lemma_frontier_min(
                        starts@,
                        ends@,
                        dist@,
                        visited@,
                        back@,
                        depth,
                        best as int,
                        p,
                        ws,
                    );
                }
                assert forall|u: int| 0 <= u < n as int && visited@[u] implies dist@[u].sle(
                    dist@[best as int],
                ) by {
                    assert(!visited@[best as int]);
                }
            }
            let ghost vis0 = visited@;
            visited.set(best, true);
            proof {
                lemma_count_true_set(vis0, best as int);
                lemma_count_true_bounds(visited@);
                assert forall|u: int| 0 <= u < n as int && #[trigger] visited@[u] implies !dist@[u].s_is_inf()
                    && !ends@.contains(u as usize) by {
                    if u != best as int {
                        assert(vis0[u]);
                    }
                }
                assert forall|u: int, v: int|
                    #![trigger visited@[u], visited@[v]]
                    0 <= u < n as int && visited@[u] && 0 <= v < n as int
                    && !visited@[v] implies dist@[u].sle(dist@[v]) by {
                    assert(!vis0[v]);
                    if u != best as int {
                        assert(vis0[u]);
                    }
                }
                assert forall|p: Seq<usize>, ws: Seq<W>| #[trigger] self.is_path(p, ws)
                    && starts@.contains(p[0]) && visited@[p[p.len() - 1] as int] implies dist@[p[
                    p.len() - 1] as int].sle(fold_weights(ws)) by {
                    if p[p.len() - 1] != best {
                        assert(vis0[p[p.len() - 1] as int]);
                    }
                }
                assert forall|v: int|
                    0 <= v < n as int && #[trigger] dist@[v] != W::s_inf() && !starts@.contains(
                        v as usize,
                    ) implies ((back@[v] as int) < n as int && visited@[back@[v] as int] && (
                exists|w: W|
                    self.edge_ok(back@[v], v as usize, w) && dist@[v] == dist@[back@[v] as int].s_add(
                        w,
                    )) && depth[v] == depth[back@[v] as int] + 1 && depth[back@[v] as int]
                    >= 0) by {
                    assert(vis0[back@[v] as int]);
                    let w0 = choose|w: W|
                        #[trigger] self.edge_ok(back@[v], v as usize, w) && dist@[v] == dist@[back@[v]
                            as int].s_add(w);
                    assert(self.edge_ok(back@[v], v as usize, w0) && dist@[v] == dist@[back@[v]
                        as int].s_add(w0));
                }
                assert(self.inv_core(starts@, ends@, dist@, visited@, back@, depth));
            }

            // Relax every arc out of `best`.
            let ghost db = dist@[best as int];
            let edges_v = self.graph[best].edges();
            let m = edges_v.len();
            let mut k: usize = 0;
            while k < m
                invariant
                    k <= m,
                    m as int == self.edges_of(best as int).len(),
                    edges_v@ == self.edges_of(best as int),
                    (best as int) < n as int,
                    visited@[best as int],
                    self.inv_core(starts@, ends@, dist@, visited@, back@, depth),
                    dist@[best as int] == db,
                    !db.s_is_inf(),
                    forall|u: int|
                        #![trigger visited@[u]]
                        0 <= u < n as int && visited@[u] ==> dist@[u].sle(db),
                    forall|u: int, kk: int|
                        0 <= u < n as int && visited@[u] && u != best as int && 0 <= kk
                            < self.edges_of(u).len() ==> #[trigger] self.relaxed_at(dist@, u, kk),
                    forall|kk: int|
                        0 <= kk < k ==> #[trigger] self.relaxed_at(dist@, best as int, kk),
                decreases m - k,
            {
                let e = &edges_v[k];
                let to = e.get_to();
                let ghost ew = self.edges_of(best as int)[k as int].s_weight();
                proof {
                    assert(self.edges_of(best as int)[k as int].s_to() == to);
                    assert((to as int) < n as int);
                }
                if !visited[to] {
                    let wref = e.get_weight();
                    let cand = dist[best].add(wref);
                    proof {
                        assert(cand == db.s_add(ew));
                        assert(to != best);
                    }
                    if !(dist[to].le(&cand)) {
                        proof {
                            W::law_total(dist@[to as int], cand);
                            assert(cand.sle(dist@[to as int]));
                            if starts@.contains(to) {
                                W::law_zero_min(cand);
                                assert(false);
                            }
                            if cand.s_is_inf() {
                                W::law_inf_max(dist@[to as int], cand);
                                assert(false);
                            }
                            W::law_inf_is_inf();
                            assert(cand != W::s_inf());
                        }
                        let ghost dist0 = dist@;
                        let ghost back0 = back@;
                        let ghost depth0 = depth;
                        dist.set(to, cand);
                        back.set(to, best);
                        proof {
                            depth = depth.update(to as int, depth0[best as int] + 1);
                            // the chain depth of best is well defined
                            assert(depth0[best as int] >= 0) by {
                                if !starts@.contains(best) {
                                    assert(dist0[best as int] != W::s_inf());
                                }
                            }
                            // starts keep their zero weight: `to` is no start
                            assert forall|v: usize| #[trigger] starts@.contains(v) && (v as int)
                                < n as int implies dist@[v as int] == W::s_zero() && depth[v as int]
                                == 0 by {
                                assert(dist0[v as int] == W::s_zero() && depth0[v as int] == 0);
                                assert(v != to);
                            }
                            // touched slots stay finite
                            assert forall|v: int| 0 <= v < n as int implies #[trigger] dist@[v]
                                == W::s_inf() || !dist@[v].s_is_inf() by {
                                if v != to as int {
                                    assert(dist@[v] == dist0[v]);
                                }
                            }
                            // backpointer structure
                            assert forall|v: int|
                                0 <= v < n as int && #[trigger] dist@[v] != W::s_inf()
                                && !starts@.contains(v as usize) implies ((back@[v] as int)
                                < n as int && visited@[back@[v] as int] && (exists|w: W|
                                self.edge_ok(back@[v], v as usize, w) && dist@[v] == dist@[back@[v]
                                    as int].s_add(w)) && depth[v] == depth[back@[v] as int] + 1
                                && depth[back@[v] as int] >= 0) by {
                                if v == to as int {
                                    assert(back@[v] == best);
                                    assert(self.edges_of(best as int)[k as int].s_to() == to);
                                    assert(self.edge_ok(best, to, ew));
                                    assert(dist@[best as int] == db);
                                    assert(dist@[v] == db.s_add(ew));
                                    assert(depth[v] == depth[best as int] + 1);
                                } else {
                                    assert(dist0[v] == dist@[v]);
                                    assert(vis0[back0[v] as int] || visited@[back0[v] as int]);
                                    assert(visited@[back0[v] as int]);
                                    assert(back0[v] as int != to as int);
                                    let w0 = choose|w: W|
                                        #[trigger] self.edge_ok(back0[v], v as usize, w) && dist0[v]
                                            == dist0[back0[v] as int].s_add(w);
                                    assert(self.edge_ok(back@[v], v as usize, w0) && dist@[v]
                                        == dist@[back@[v] as int].s_add(w0));
                                }
                            }
                            // finalized vertices are untouched
                            assert forall|u: int| 0 <= u < n as int
                                && #[trigger] visited@[u] implies !dist@[u].s_is_inf()
                                && !ends@.contains(u as usize) by {
                                assert(u != to as int);
                            }
                            // finalized weights still sit below unfinalized ones
                            assert forall|u: int, v: int|
                                #![trigger visited@[u], visited@[v]]
                                0 <= u < n as int && visited@[u] && 0 <= v < n as int
                                && !visited@[v] implies dist@[u].sle(dist@[v]) by {
                                assert(u != to as int);
                                if v == to as int {
                                    W::law_add_le_left(db, ew);
                                    W::law_trans(dist@[u], db, cand);
                                }
                            }
                            // finalized weights still undercut start-rooted paths
                            assert forall|p: Seq<usize>, ws: Seq<W>| #[trigger] self.is_path(p, ws)
                                && starts@.contains(p[0]) && visited@[p[p.len()
                                - 1] as int] implies dist@[p[p.len() - 1] as int].sle(
                                fold_weights(ws),
                            ) by {
                                assert(p[p.len() - 1] as int != to as int);
                                assert(dist@[p[p.len() - 1] as int] == dist0[p[p.len() - 1] as int]);
                            }
                            assert(self.inv_core(starts@, ends@, dist@, visited@, back@, depth));
                            // earlier relaxations survive the decrease at `to`
                            assert forall|u: int, kk: int|
                                0 <= u < n as int && visited@[u] && u != best as int && 0 <= kk
                                    < self.edges_of(u).len() implies #[trigger] self.relaxed_at(
                                dist@,
                                u,
                                kk,
                            ) by {
                                assert(self.relaxed_at(dist0, u, kk));
                                assert(u != to as int);
                                let t = self.edges_of(u)[kk].s_to() as int;
                                if t == to as int {
                                    W::law_trans(
                                        cand,
                                        dist0[t],
                                        dist0[u].s_add(self.edges_of(u)[kk].s_weight()),
                                    );
                                }
                            }
                            assert forall|kk: int| 0 <= kk < k implies #[trigger] self.relaxed_at(
                                dist@,
                                best as int,
                                kk,
                            ) by {
                                assert(self.relaxed_at(dist0, best as int, kk));
                                let t = self.edges_of(best as int)[kk].s_to() as int;
                                if t == to as int {
                                    W::law_trans(
                                        cand,
                                        dist0[t],
                                        dist0[best as int].s_add(
                                            self.edges_of(best as int)[kk].s_weight(),
                                        ),
                                    );
                                }
                            }
                            W::law_refl(cand);
                            assert(self.relaxed_at(dist@, best as int, k as int));
                            assert forall|u: int|
                                #![trigger visited@[u]]
                                0 <= u < n as int && visited@[u] implies dist@[u].sle(db) by {
                                assert(u != to as int);
                            }
                        }
                    } else {
                        proof {
                            assert(dist@[to as int].sle(cand));
                            assert(self.relaxed_at(dist@, best as int, k as int));
                        }
                    }
                } else {
                    proof {
                        assert(dist@[to as int].sle(db));
                        W::law_add_le_left(db, ew);
                        W::law_trans(dist@[to as int], db, db.s_add(ew));
                        assert(self.relaxed_at(dist@, best as int, k as int));
                    }
                }
                k += 1;
            }
            proof {
                assert forall|u: int, kk: int|
                    0 <= u < n as int && visited@[u] && 0 <= kk < self.edges_of(
                        u,
                    ).len() implies #[trigger] self.relaxed_at(dist@, u, kk) by {}
                assert(self.relaxed(dist@, visited@));
            }
        }

        // Reconstruction: walk the backpointers from the finalized end back
        // into the start set, collecting the path and its step weights.
        let mut now: usize = cur;
        let mut route: Vec<usize> = Vec::new();
        let ghost mut sw: Seq<W> = Seq::<W>::empty();
        proof {
            W::law_inf_is_inf();
            assert(depth[cur as int] >= 0) by {
                if !starts@.contains(cur) {
                    assert(dist@[cur as int] != W::s_inf());
                }
            }
        }
        let mut at_start = contains_idx(starts, now);
        while !at_start
            invariant
                at_start == starts@.contains(now),
                (now as int) < n as int,
                !dist@[now as int].s_is_inf(),
                dist@[now as int] != W::s_inf(),
                depth[now as int] >= 0,
                route@.len() > 0 ==> route@[route@.len() - 1] == cur,
                route@.len() == 0 ==> now == cur,
                sw.len() == route@.len(),
                forall|t: int|
                    0 <= t < route@.len() ==> (#[trigger] route@[t] as int) < n as int,
                forall|t: int|
                    0 <= t < sw.len() ==> self.edge_ok(
                        chain_at(now, route@, t),
                        chain_at(now, route@, t + 1),
                        #[trigger] sw[t],
                    ) && dist@[chain_at(now, route@, t + 1) as int] == dist@[chain_at(
                        now,
                        route@,
                        t,
                    ) as int].s_add(sw[t]),
            decreases depth[now as int],
        {
            let ghost now0 = now;
            let ghost route0 = route@;
            let ghost sw0 = sw;
            route.insert(0, now);
            let prev = back[now];
            proof {
                assert(dist@[now0 as int] != W::s_inf() && !starts@.contains(now0));
                let w0 = choose|w: W|
                    #[trigger] self.edge_ok(back@[now0 as int], now0, w) && dist@[now0 as int]
                        == dist@[back@[now0 as int] as int].s_add(w);
                assert(self.edge_ok(back@[now0 as int], now0, w0) && dist@[now0 as int]
                    == dist@[back@[now0 as int] as int].s_add(w0));
                sw = seq![w0] + sw;
                assert(sw[0] == w0);
                assert(forall|t: int| 1 <= t < sw.len() ==> #[trigger] sw[t] == sw0[t - 1]);
            }
            now = prev;
            proof {
                assert(visited@[now as int]);
                assert(!dist@[now as int].s_is_inf());
                assert(dist@[now as int] != W::s_inf());
                assert(route@ =~= seq![now0] + route0);
                assert forall|t: int| 0 <= t < sw.len() implies self.edge_ok(
                    chain_at(now, route@, t),
                    chain_at(now, route@, t + 1),
                    #[trigger] sw[t],
                ) && dist@[chain_at(now, route@, t + 1) as int] == dist@[chain_at(
                    now,
                    route@,
                    t,
                ) as int].s_add(sw[t]) by {
                    if t == 0 {
                        assert(chain_at(now, route@, 0) == now);
                        assert(chain_at(now, route@, 1) == route@[0]);
                        assert(route@[0] == now0);
                    } else {
                        assert(sw[t] == sw0[t - 1]);
                        assert(self.edge_ok(
                            chain_at(now0, route0, t - 1),
                            chain_at(now0, route0, t),
                            sw0[t - 1],
                        ));
                        assert(chain_at(now, route@, t) == chain_at(now0, route0, t - 1));
                        assert(chain_at(now, route@, t + 1) == chain_at(now0, route0, t));
                    }
                }
            }
            at_start = contains_idx(starts, now);
        }
        let ghost routeb = route@;
        route.insert(0, now);
        let w = dist[cur].dup();
        proof {
            let rfull = route@;
            assert(rfull =~= seq![now] + routeb);
            assert(rfull[0] == now);
            assert(dist@[now as int] == W::s_zero());
            assert(rfull.len() == sw.len() + 1);
            assert forall|t: int| 0 <= t < rfull.len() implies (#[trigger] rfull[t] as int)
                < n as int by {
                if t >= 1 {
                    assert(rfull[t] == routeb[t - 1]);
                }
            }
            assert forall|t: int| 0 <= t < sw.len() implies self.edge_ok(
                (#[trigger] rfull[t]),
                rfull[t + 1],
                sw[t],
            ) && dist@[rfull[t + 1] as int] == dist@[rfull[t] as int].s_add(sw[t]) by {
                assert(self.edge_ok(
                    chain_at(now, routeb, t),
                    chain_at(now, routeb, t + 1),
                    sw[t],
                ));
                assert(rfull[t] == chain_at(now, routeb, t));
                assert(rfull[t + 1] == chain_at(now, routeb, t + 1));
            }
            self.lemma_chain_cost(dist@, rfull, sw, rfull.len() as int);
            assert(rfull.take(rfull.len() as int) =~= rfull);
            assert(sw.take(rfull.len() as int - 1) =~= sw);
            assert(rfull[rfull.len() - 1] == cur) by {
                if routeb.len() > 0 {
                    assert(rfull[rfull.len() - 1] == routeb[routeb.len() - 1]);
                }
            }
            assert(self.is_path(rfull, sw) && fold_weights(sw) == w);
        }
        Ok((route, w))
    }

    /// The traversal-state invariant of a query, apart from edge
    /// relaxation. `dist` holds the tentative weights, `visited` the
    /// finalized vertices, `back` the backpointers and `depth` the length
    /// of each backpointer chain.
    spec fn inv_core(
        self,
        starts: Seq<usize>,
        ends: Seq<usize>,
        dist: Seq<W>,
        visited: Seq<bool>,
        back: Seq<usize>,
        depth: Seq<int>,
    ) -> bool {
        let n = self.vertices().len() as int;
        // the arena is closed under edges, and the state has one slot per vertex
        &&& self.wf()
        &&& dist.len() == n
        &&& visited.len() == n
        &&& back.len() == n
        &&& depth.len() == n
        // known start vertices rest at zero, with an empty backpointer chain
        &&& forall|v: usize|
            #[trigger] starts.contains(v) && (v as int) < n ==> dist[v as int] == W::s_zero()
                && depth[v as int] == 0
        // a slot is either untouched (the canonical infinity) or holds a finite weight
        &&& forall|v: int| 0 <= v < n ==> #[trigger] dist[v] == W::s_inf() || !dist[v].s_is_inf()
        // every touched non-start vertex hangs off a finalized predecessor by one arc
        &&& forall|v: int|
            0 <= v < n && #[trigger] dist[v] != W::s_inf() && !starts.contains(v as usize) ==> {
                &&& (back[v] as int) < n
                &&& visited[back[v] as int]
                &&& exists|w: W|
                    self.edge_ok(back[v], v as usize, w) && dist[v] == dist[back[v] as int].s_add(
                        w,
                    )
                &&& depth[v] == depth[back[v] as int] + 1
                &&& depth[back[v] as int] >= 0
            }
        // a finalized vertex has a finite weight and is not a sought end
        &&& forall|u: int|
            0 <= u < n && #[trigger] visited[u] ==> !dist[u].s_is_inf() && !ends.contains(
                u as usize,
            )
        // finalized weights sit below all unfinalized ones
        &&& forall|u: int, v: int|
            #![trigger visited[u], visited[v]]
            0 <= u < n && visited[u] && 0 <= v < n && !visited[v] ==> dist[u].sle(dist[v])
        // a finalized weight undercuts every start-rooted path to its vertex
        &&& forall|p: Seq<usize>, ws: Seq<W>|
            #[trigger] self.is_path(p, ws) && starts.contains(p[0]) && visited[p[p.len()
                - 1] as int] ==> dist[p[p.len() - 1] as int].sle(fold_weights(ws))
    }

    /// Arc `k` out of vertex `u` is relaxed: its destination's tentative
    /// weight is at most the weight through `u`.
    spec fn relaxed_at(self, dist: Seq<W>, u: int, k: int) -> bool {
        dist[self.edges_of(u)[k].s_to() as int].sle(dist[u].s_add(self.edges_of(u)[k].s_weight()))
    }

    /// All arcs out of finalized vertices are relaxed.
    spec fn relaxed(self, dist: Seq<W>, visited: Seq<bool>) -> bool {
        forall|u: int, k: int|
            0 <= u < self.vertices().len() && visited[u] && 0 <= k < self.edges_of(u).len()
                ==> #[trigger] self.relaxed_at(dist, u, k)
    }

    /// The greedy step of Dijkstra's strategy: when `u` carries the least
    /// tentative weight among unfinalized vertices, that weight undercuts
    /// every start-rooted path that ends at an unfinalized vertex.
    proof fn lemma_frontier_min(
        self,
        starts: Seq<usize>,
        ends: Seq<usize>,
        dist: Seq<W>,
        visited: Seq<bool>,
        back: Seq<usize>,
        depth: Seq<int>,
        u: int,
        p: Seq<usize>,
        ws: Seq<W>,
    )
        requires
            self.inv_core(starts, ends, dist, visited, back, depth),
            self.relaxed(dist, visited),
            0 <= u < self.vertices().len(),
            !visited[u],
            forall|v: int|
                #![trigger dist[v]]
                0 <= v < self.vertices().len() && !visited[v] ==> dist[u].sle(dist[v]),
            self.is_path(p, ws),
            starts.contains(p[0]),
            !visited[p[p.len() - 1] as int],
        ensures
            dist[u].sle(fold_weights(ws)),
        decreases p.len(),
    {
        let n = self.vertices().len() as int;
        let last = p[p.len() - 1];
        if p.len() == 1 {
            assert(ws.len() == 0);
            assert(fold_weights(ws) == W::s_zero());
            assert(dist[last as int] == W::s_zero());
            assert(dist[u].sle(dist[last as int]));
        } else {
            let q = p.drop_last();
            let wq = ws.drop_last();
            let vp = p[p.len() - 2];
            let wl = ws[ws.len() - 1];
            assert(self.edge_ok(vp, last, wl));
            assert(fold_weights(ws) == fold_weights(wq).s_add(wl));
            assert(self.is_path(q, wq)) by {
                assert forall|i: int| 0 <= i < wq.len() implies self.edge_ok(
                    q[i],
                    q[i + 1],
                    #[trigger] wq[i],
                ) by {
                    assert(self.edge_ok(p[i], p[i + 1], ws[i]));
                }
            }
            assert(q[0] == p[0]);
            assert(q[q.len() - 1] == vp);
            if visited[vp as int] {
                let k = choose|k: int|
                    0 <= k < self.edges_of(vp as int).len() && (#[trigger] self.edges_of(
                        vp as int,
                    )[k]).s_to() == last && self.edges_of(vp as int)[k].s_weight() == wl;
                assert(self.relaxed_at(dist, vp as int, k));
                assert(dist[last as int].sle(dist[vp as int].s_add(wl)));
                assert(dist[vp as int].sle(fold_weights(wq)));
                W::law_add_mono(dist[vp as int], fold_weights(wq), wl);
                W::law_trans(dist[last as int], dist[vp as int].s_add(wl), fold_weights(ws));
                W::law_trans(dist[u], dist[last as int], fold_weights(ws));
            } else {
                self.lemma_frontier_min(starts, ends, dist, visited, back, depth, u, q, wq);
                W::law_add_le_left(fold_weights(wq), wl);
                W::law_trans(dist[u], fold_weights(wq), fold_weights(ws));
            }
        }
    }

    /// Turns a backpointer chain whose root rests at zero, with its step
    /// weights `sw`, into a path witness: the first `m` vertices of `p`
    /// form a path whose weights sum to the tentative weight of the
    /// `m`-th.
    proof fn lemma_chain_cost(self, dist: Seq<W>, p: Seq<usize>, sw: Seq<W>, m: int)
        requires
            1 <= m <= p.len(),
            sw.len() == p.len() - 1,
            forall|i: int| 0 <= i < p.len() ==> (#[trigger] p[i] as int) < self.vertices().len(),
            dist.len() == self.vertices().len(),
            dist[p[0] as int] == W::s_zero(),
            forall|i: int|
                0 <= i < sw.len() ==> self.edge_ok(#[trigger] p[i], p[i + 1], sw[i]) && dist[p[i
                    + 1] as int] == dist[p[i] as int].s_add(sw[i]),
        ensures
            self.is_path(p.take(m), sw.take(m - 1)),
            fold_weights(sw.take(m - 1)) == dist[p[m - 1] as int],
        decreases m,
    {
        let pm = p.take(m);
        let wm = sw.take(m - 1);
        if m == 1 {
            assert(pm.len() == 1 && pm[0] == p[0]);
            assert(wm =~= Seq::<W>::empty());
            assert(self.is_path(pm, wm));
            assert(fold_weights(wm) == dist[p[0] as int]);
        } else {
            self.lemma_chain_cost(dist, p, sw, m - 1);
            assert(wm.drop_last() =~= sw.take(m - 2));
            assert(wm.last() == sw[m - 2]);
            assert(fold_weights(wm) == fold_weights(sw.take(m - 2)).s_add(sw[m - 2]));
            assert(fold_weights(wm) == dist[p[m - 1] as int]);
            assert(self.is_path(pm, wm)) by {
                assert(wm.len() == pm.len() - 1);
                assert forall|i: int| 0 <= i < wm.len() implies self.edge_ok(
                    pm[i],
                    pm[i + 1],
                    #[trigger] wm[i],
                ) by {
                    assert(pm[i] == p[i] && pm[i + 1] == p[i + 1] && wm[i] == sw[i]);
                    assert(self.edge_ok(p[i], p[i + 1], sw[i]));
                }
            }
        }
    }
}

/// The `i`-th vertex of the chain formed by `head` followed by `tail`.
spec fn chain_at(head: usize, tail: Seq<usize>, i: int) -> usize {
    if i == 0 {
        head
    } else {
        tail[i - 1]
    }
}

/// How many entries of `s` are set.
spec fn count_true(s: Seq<bool>) -> int
    decreases s.len(),
{
    if s.len() == 0 {
        0
    } else {
        count_true(s.drop_last()) + if s.last() {
            1int
        } else {
            0int
        }
    }
}

proof fn lemma_count_true_bounds(s: Seq<bool>)
    ensures
        0 <= count_true(s) <= s.len(),
    decreases s.len(),
{
    if s.len() > 0 {
        lemma_count_true_bounds(s.drop_last());
    }
}

proof fn lemma_count_true_set(s: Seq<bool>, k: int)
    requires
        0 <= k < s.len(),
        !s[k],
    ensures
        count_true(s.update(k, true)) == count_true(s) + 1,
    decreases s.len(),
{
    let t = s.update(k, true);
    if k == s.len() - 1 {
        assert(t.drop_last() =~= s.drop_last());
        assert(t.last());
        assert(!s.last());
    } else {
        assert(t.drop_last() =~= s.drop_last().update(k, true));
        assert(t.last() == s.last());
        lemma_count_true_set(s.drop_last(), k);
    }
}

/// Linear membership test on a set of vertex indices.
fn contains_idx(xs: &Vec<usize>, x: usize) -> (r: bool)
    ensures
        r == xs@.contains(x),
{
    let mut i: usize = 0;
    while i < xs.len()
        invariant
            i <= xs@.len(),
            forall|k: int| 0 <= k < i ==> xs@[k] != x,
        decreases xs@.len() - i,
    {
        if xs[i] == x {
            assert(xs@[i as int] == x);
            return true;
        }
        i += 1;
    }
    assert(!xs@.contains(x));
    false
}

} // verus!
