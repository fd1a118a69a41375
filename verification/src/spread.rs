//! What holds while an orientation is carried across a mesh breadth first,
//! and why each step keeps it.
//!
//! The triangles at hand are the `base` tuples or their flips. A triangle is
//! visited once its orientation stands. A visited triangle waits in the
//! queue until its neighbours have been dealt with; after that it is left
//! behind.

use crate::mesh::Mesh;
use crate::orient::{lemma_opposed_forces, lemma_parity_decides, lemma_same_complex, opposed};
use crate::simplex::{lemma_induced_is_side, Edge, Triangle};
use vstd::prelude::*;

verus! {

/// How many entries of the sequence are `true`.
pub(crate) open spec fn count_true(s: Seq<bool>) -> nat
    decreases s.len(),
{
    if s.len() == 0 {
        0
    } else {
        count_true(s.drop_last()) + if s.last() {
            1nat
        } else {
            0nat
        }
    }
}

/// Setting an entry that was `false` raises the count by one, and the count
/// is never above the length.
pub(crate) proof fn lemma_count_true(s: Seq<bool>, i: int)
    requires
        0 <= i < s.len(),
        !s[i],
    ensures
        count_true(s.update(i, true)) == count_true(s) + 1,
        count_true(s.update(i, true)) <= s.len(),
    decreases s.len(),
{
    let after = s.update(i, true);
    if i == s.len() - 1 {
        assert(after.drop_last() =~= s.drop_last());
        lemma_count_bound(s.drop_last());
    } else {
        assert(after.drop_last() =~= s.drop_last().update(i, true));
        lemma_count_true(s.drop_last(), i);
    }
}

/// The count of `true` entries is not above the length.
pub(crate) proof fn lemma_count_bound(s: Seq<bool>)
    ensures
        count_true(s) <= s.len(),
    decreases s.len(),
{
    if s.len() > 0 {
        lemma_count_bound(s.drop_last());
    }
}

/// Triangle `t` waits in the queue.
pub(crate) closed spec fn waits(queue: Seq<usize>, t: int) -> bool {
    exists|i: int| 0 <= i < queue.len() && #[trigger] queue[i] as int == t
}

/// Every triangle that has been left behind is opposed to all its
/// neighbours, and they have been visited. A triangle is left behind when it
/// has been visited and neither waits in the queue nor is the `active` one.
#[verifier::opaque]
pub(crate) closed spec fn settled(
    base: &Mesh,
    cur: Seq<Triangle>,
    visited: Seq<bool>,
    queue: Seq<usize>,
    active: int,
) -> bool {
    forall|t: int, u: int, k: int|
        0 <= t < cur.len() && 0 <= u < cur.len() && t != u && 0 <= k < base.edges@.len()
            && visited[t] && t != active && !waits(queue, t) && #[trigger] base.shares(t, u, k)
            ==> visited[u] && opposed(cur[t], cur[u], base.edges@[k])
}

/// Every visited triangle can be reached from the first one.
#[verifier::opaque]
pub(crate) closed spec fn visited_reachable(base: &Mesh, visited: Seq<bool>) -> bool {
    forall|u: int| 0 <= u < visited.len() && #[trigger] visited[u] ==> base.reachable(u)
}

/// The tuple `a` has the parity of the tuple `b`.
#[verifier::opaque]
pub(crate) closed spec fn keeps_parity(a: Triangle, b: Triangle) -> bool {
    a.is_even() == b.is_even()
}

/// Every orientation that is consistent on what can be reached relates to
/// the current tuples in the same way on all visited triangles: it keeps
/// the parity of them all, or of none.
#[verifier::opaque]
pub(crate) closed spec fn forced(base: &Mesh, cur: Seq<Triangle>, visited: Seq<bool>) -> bool {
    forall|o: Seq<Triangle>, u: int|
        #![trigger base.oriented_in_reach_by(o), visited[u]]
        base.oriented_in_reach_by(o) && 0 <= u < visited.len() && visited[u] ==> keeps_parity(
            o[u],
            cur[u],
        ) == keeps_parity(o[0], cur[0])
}

/// The tuple `c` is `b` or `b` with its last two corners exchanged.
pub(crate) open spec fn flip_of(b: Triangle, c: Triangle) -> bool {
    c == b || c == b.flipped()
}

/// Each current tuple is the base tuple or its flip, and a triangle that
/// was not visited is as in the base.
#[verifier::opaque]
pub(crate) closed spec fn flips_of(base: Seq<Triangle>, cur: Seq<Triangle>,
    visited: Seq<bool>) -> bool {
    &&& cur.len() == base.len()
    &&& visited.len() == base.len()
    &&& forall|j: int| 0 <= j < cur.len() ==> flip_of(base[j], #[trigger] cur[j])
    &&& forall|j: int| 0 <= j < cur.len() && !visited[j] ==> #[trigger] cur[j] == base[j]
}

/// A flip of a triangle has its corners and its sides, and the vertex set
/// of every tuple with the vertex set of the triangle.
pub(crate) proof fn lemma_flip(b: Triangle, c: Triangle, o: Triangle, e: Edge)
    requires
        b.wf(),
        flip_of(b, c),
        o.same_simplex(b),
    ensures
        c.wf(),
        c.same_simplex(b),
        b.same_simplex(c),
        c.same_simplex(o),
        b.has_face(e) <==> c.has_face(e),
{
}

/// Two triangles with a common side on which they are not opposed cannot
/// both keep, or both change, their parity in a consistent orientation.
pub(crate) proof fn lemma_conflict(a: Triangle, b: Triangle, a2: Triangle, b2: Triangle, e: Edge)
    requires
        a.wf(),
        b.wf(),
        a2.wf(),
        b2.wf(),
        e.wf(),
        a.same_simplex(a2),
        b.same_simplex(b2),
        a.has_face(e),
        b.has_face(e),
        !opposed(a, b, e),
        opposed(a2, b2, e),
    ensures
        keeps_parity(a2, a) != keeps_parity(b2, b),
{
    reveal(opposed);
    reveal(keeps_parity);
    lemma_parity_decides(a, a2, e);
    lemma_parity_decides(b, b2, e);
    lemma_induced_is_side(a, e);
    lemma_induced_is_side(b, e);
}

/// Two triangles that are opposed on a common side keep their parity
/// together, or change it together, in every consistent orientation.
pub(crate) proof fn lemma_forces(a: Triangle, b: Triangle, a2: Triangle, b2: Triangle, e: Edge)
    requires
        a.wf(),
        b.wf(),
        a2.wf(),
        b2.wf(),
        e.wf(),
        a.same_simplex(a2),
        b.same_simplex(b2),
        a.has_face(e),
        b.has_face(e),
        opposed(a, b, e),
        opposed(a2, b2, e),
    ensures
        keeps_parity(a2, a) == keeps_parity(b2, b),
{
    reveal(keeps_parity);
    lemma_opposed_forces(a, b, a2, b2, e);
}

/// A walk to a triangle goes on to each of its neighbours.
pub(crate) proof fn lemma_reach_step(base: &Mesh, t: int, u: int)
    requires
        base.reachable(t),
        0 <= u < base.triangles@.len(),
        base.adjacent(t, u),
    ensures
        base.reachable(u),
{
    let walk = choose|walk: Seq<int>| #[trigger] base.is_walk(walk) && walk.last() == t;
    let longer = walk.push(u);
    assert forall|i: int| 1 <= i < longer.len() implies base.adjacent(
        longer[i - 1],
        #[trigger] longer[i],
    ) by {
        if i < walk.len() {
            assert(longer[i] == walk[i]);
            assert(longer[i - 1] == walk[i - 1]);
        }
    }
    assert(base.is_walk(longer));
    assert(longer.last() == u);
}

/// A set of triangles that holds the first one, and with each triangle its
/// neighbours, holds every triangle that can be reached.
pub(crate) proof fn lemma_closed_holds_reachable(base: &Mesh, visited: Seq<bool>, walk: Seq<int>,
    upto: int)
    requires
        base.is_walk(walk),
        visited.len() == base.triangles@.len(),
        visited[0],
        forall|t: int, u: int|
            0 <= t < visited.len() && 0 <= u < visited.len() && visited[t]
                && #[trigger] base.adjacent(t, u) ==> visited[u],
        0 <= upto < walk.len(),
    ensures
        visited[walk[upto]],
    decreases upto,
{
    if upto > 0 {
        lemma_closed_holds_reachable(base, visited, walk, upto - 1);
        assert(base.adjacent(walk[upto - 1], walk[upto]));
    }
}

/// Meshes of the same simplices have the same neighbours.
pub(crate) proof fn lemma_same_adjacent(a: &Mesh, b: &Mesh, t: int, u: int)
    requires
        a.same_complex(b),
        a.wf(),
        0 <= t < a.triangles@.len(),
        0 <= u < a.triangles@.len(),
    ensures
        a.adjacent(t, u) <==> b.adjacent(t, u),
{
    lemma_same_complex(a, b);
    if a.adjacent(t, u) {
        let k = choose|k: int| 0 <= k < a.edges@.len() && #[trigger] a.shares(t, u, k);
        assert(b.shares(t, u, k));
    }
    if b.adjacent(t, u) {
        let k = choose|k: int| 0 <= k < b.edges@.len() && #[trigger] b.shares(t, u, k);
        assert(a.shares(t, u, k));
    }
}

/// Current tuples that are the base tuples up to flips belong to a mesh of
/// the same simplices.
pub(crate) proof fn lemma_flips_same_complex(base: &Mesh, now: &Mesh, visited: Seq<bool>)
    requires
        base.wf(),
        now.vertex_count == base.vertex_count,
        now.edges@ == base.edges@,
        flips_of(base.triangles@, now.triangles@, visited),
    ensures
        base.same_complex(now),
        now.wf(),
{
    reveal(flips_of);
    assert forall|j: int| 0 <= j < base.triangles@.len()
        implies (#[trigger] base.triangles@[j]).same_simplex(
        now.triangles@[j],
    ) by {
        assert(base.triangle_ok(base.triangles@[j]));
        assert(flip_of(base.triangles@[j], now.triangles@[j]));
    }
    assert forall|k: int| 0 <= k < base.edges@.len()
        implies (#[trigger] base.edges@[k]).same_simplex(
        now.edges@[k],
    ) by {
        assert(base.edge_ok(base.edges@[k]));
    }
    lemma_same_complex(base, now);
}

/// The neighbours of the active triangle that have been dealt with are
/// visited and opposed to it.
#[verifier::opaque]
pub(crate) closed spec fn paired(
    base: &Mesh,
    cur: Seq<Triangle>,
    visited: Seq<bool>,
    t: int,
    nbrs: Seq<usize>,
    upto: int,
) -> bool {
    forall|b: int, k: int|
        0 <= b < upto && 0 <= k < base.edges@.len() && #[trigger] base.shares(t, nbrs[b] as int, k)
            ==> visited[nbrs[b] as int] && opposed(cur[t], cur[nbrs[b] as int], base.edges@[k])
}

/// Taking the first triangle off the queue and making it the active one
/// leaves the same triangles behind.
pub(crate) proof fn lemma_pop_keeps_settled(
    base: &Mesh,
    cur: Seq<Triangle>,
    visited: Seq<bool>,
    queue: Seq<usize>,
)
    requires
        queue.len() > 0,
        settled(base, cur, visited, queue, -1),
    ensures
        settled(base, cur, visited, queue.subrange(1, queue.len() as int), queue[0] as int),
{
    reveal(settled);
    let rest = queue.subrange(1, queue.len() as int);
    assert forall|t: int, u: int, k: int|
        0 <= t < cur.len() && 0 <= u < cur.len() && t != u && 0 <= k < base.edges@.len()
            && visited[t] && t != queue[0] as int && !waits(rest, t) && #[trigger] base.shares(
            t,
            u,
            k,
        ) implies visited[u] && opposed(cur[t], cur[u], base.edges@[k]) by {
        if waits(queue, t) {
            let i = choose|i: int| 0 <= i < queue.len() && #[trigger] queue[i] as int == t;
            assert(rest[i - 1] == queue[i]);
        }
    }
}

/// Dealing with a neighbour of the active triangle leaves every tuple the
/// base tuple or its flip, and the visited triangles reachable.
pub(crate) proof fn lemma_visit_keeps_reach(
    base: &Mesh,
    cur: Seq<Triangle>,
    cur2: Seq<Triangle>,
    visited: Seq<bool>,
    t: int,
    u: int,
)
    requires
        flips_of(base.triangles@, cur, visited),
        visited_reachable(base, visited),
        cur2.len() == cur.len(),
        0 <= t < cur.len(),
        0 <= u < cur.len(),
        visited[t],
        base.adjacent(t, u),
        forall|j: int| 0 <= j < cur.len() && j != u ==> #[trigger] cur2[j] == cur[j],
        cur2[u] == cur[u] || (!visited[u] && cur2[u] == cur[u].flipped()),
    ensures
        flips_of(base.triangles@, cur2, visited.update(u, true)),
        visited_reachable(base, visited.update(u, true)),
{
    reveal(flips_of);
    reveal(visited_reachable);
    let visited2 = visited.update(u, true);
    assert forall|j: int| 0 <= j < cur2.len() implies flip_of(
        base.triangles@[j],
        #[trigger] cur2[j],
    ) by {
        assert(flip_of(base.triangles@[j], cur[j]));
        if j == u && !visited[u] {
            assert(cur[u] == base.triangles@[u]);
        }
    }
    assert forall|j: int| 0 <= j < cur2.len() && !visited2[j] implies #[trigger] cur2[j]
        == base.triangles@[j] by {
        assert(cur[j] == base.triangles@[j]);
    }
    assert forall|w: int| 0 <= w < visited2.len() && #[trigger] visited2[w] implies base.reachable(
        w,
    ) by {
        if w == u {
            assert(visited[t]);
            lemma_reach_step(base, t, u);
        } else {
            assert(visited[w]);
        }
    }
}

/// Dealing with a neighbour of the active triangle leaves the triangles
/// that were left behind settled, and the neighbours dealt with paired.
pub(crate) proof fn lemma_visit_keeps_settled(
    base: &Mesh,
    cur: Seq<Triangle>,
    cur2: Seq<Triangle>,
    visited: Seq<bool>,
    queue: Seq<usize>,
    queue2: Seq<usize>,
    t: int,
    nbrs: Seq<usize>,
    a: int,
)
    requires
        cur.len() == base.triangles@.len(),
        visited.len() == cur.len(),
        cur2.len() == cur.len(),
        settled(base, cur, visited, queue, t),
        paired(base, cur, visited, t, nbrs, a),
        0 <= t < cur.len(),
        visited[t],
        0 <= a < nbrs.len(),
        forall|i: int, j: int| 0 <= i < j < nbrs.len() ==> nbrs[i] < nbrs[j],
        nbrs[a] < cur.len(),
        nbrs[a] as int != t,
        forall|j: int| 0 <= j < cur.len() && j != nbrs[a] ==> #[trigger] cur2[j] == cur[j],
        cur2[nbrs[a] as int] == cur[nbrs[a] as int] || !visited[nbrs[a] as int],
        visited[nbrs[a] as int] ==> queue2 == queue,
        !visited[nbrs[a] as int] ==> queue2 == queue.push(nbrs[a]),
        forall|k: int|
            0 <= k < base.edges@.len() && #[trigger] base.shares(t, nbrs[a] as int, k) ==> opposed(
                cur2[t],
                cur2[nbrs[a] as int],
                base.edges@[k],
            ),
    ensures
        settled(base, cur2, visited.update(nbrs[a] as int, true), queue2, t),
        paired(base, cur2, visited.update(nbrs[a] as int, true), t, nbrs, a + 1),
{
    reveal(settled);
    reveal(paired);
    let u = nbrs[a] as int;
    let visited2 = visited.update(u, true);
    let edges = base.edges@;
    assert forall|t1: int, u1: int, k: int|
        0 <= t1 < cur2.len() && 0 <= u1 < cur2.len() && t1 != u1 && 0 <= k < edges.len()
            && visited2[t1] && t1 != t && !waits(queue2, t1) && #[trigger] base.shares(
            t1,
            u1,
            k,
        ) implies visited2[u1] && opposed(cur2[t1], cur2[u1], edges[k]) by {
        if !visited[u] {
            assert(queue2[queue.len() as int] == nbrs[a]);
            assert(waits(queue2, u));
            assert(t1 != u);
        }
        assert(visited[t1]);
        if waits(queue, t1) {
            let i = choose|i: int| 0 <= i < queue.len() && #[trigger] queue[i] as int == t1;
            assert(queue2[i] as int == t1);
        }
        assert(visited[u1] && opposed(cur[t1], cur[u1], edges[k]));
        if visited[u] {
            assert(cur2[u] == cur[u]);
        } else {
            assert(u1 != u);
        }
        assert(cur2[t1] == cur[t1]);
        assert(cur2[u1] == cur[u1]);
    }
    assert forall|b: int, k: int|
        0 <= b < a + 1 && 0 <= k < edges.len() && #[trigger] base.shares(
            t,
            nbrs[b] as int,
            k,
        ) implies visited2[nbrs[b] as int] && opposed(cur2[t], cur2[nbrs[b] as int], edges[k]) by {
        if b < a {
            assert(nbrs[b] < nbrs[a]);
            assert(visited[nbrs[b] as int] && opposed(cur[t], cur[nbrs[b] as int], edges[k]));
            assert(cur2[nbrs[b] as int] == cur[nbrs[b] as int]);
            assert(cur2[t] == cur[t]);
        }
    }
}

/// Dealing with a neighbour of the active triangle leaves the visited
/// triangles forced.
pub(crate) proof fn lemma_visit_keeps_forced(
    base: &Mesh,
    cur: Seq<Triangle>,
    cur2: Seq<Triangle>,
    visited: Seq<bool>,
    t: int,
    u: int,
)
    requires
        base.wf(),
        flips_of(base.triangles@, cur, visited),
        flips_of(base.triangles@, cur2, visited.update(u, true)),
        forced(base, cur, visited),
        visited_reachable(base, visited),
        0 <= t < cur.len(),
        0 <= u < cur.len(),
        t != u,
        visited[t],
        visited[0],
        base.adjacent(t, u),
        forall|j: int| 0 <= j < cur.len() && j != u ==> #[trigger] cur2[j] == cur[j],
        cur2[u] == cur[u] || !visited[u],
        forall|k: int|
            0 <= k < base.edges@.len() && #[trigger] base.shares(t, u, k) ==> opposed(
                cur2[t],
                cur2[u],
                base.edges@[k],
            ),
    ensures
        forced(base, cur2, visited.update(u, true)),
{
    reveal(forced);
    reveal(flips_of);
    reveal(visited_reachable);
    let visited2 = visited.update(u, true);
    let edges = base.edges@;
    let k = choose|k: int| 0 <= k < edges.len() && #[trigger] base.shares(t, u, k);
    assert(base.reachable(t));
    assert(opposed(cur2[t], cur2[u], edges[k]));
    assert(base.triangle_ok(base.triangles@[t]));
    assert(base.triangle_ok(base.triangles@[u]));
    assert(base.edge_ok(edges[k]));
    assert(flip_of(base.triangles@[t], cur2[t]));
    assert(flip_of(base.triangles@[u], cur2[u]));
    assert(cur2[0] == cur[0]);
    assert(cur2[t] == cur[t]);
    assert forall|o: Seq<Triangle>, w: int|
        #![trigger base.oriented_in_reach_by(o), visited2[w]]
        base.oriented_in_reach_by(o) && 0 <= w < visited2.len() && visited2[w] implies keeps_parity(
        o[w],
        cur2[w],
    ) == keeps_parity(o[0], cur2[0]) by {
        if visited[w] {
            assert(cur2[w] == cur[w]);
            assert(keeps_parity(o[w], cur[w]) == keeps_parity(o[0], cur[0]));
        } else {
            assert(w == u);
            assert(keeps_parity(o[t], cur[t]) == keeps_parity(o[0], cur[0]));
            assert(opposed(o[t], o[u], edges[k]));
            assert(o[t].wf() && o[t].same_simplex(base.triangles@[t]));
            assert(o[u].wf() && o[u].same_simplex(base.triangles@[u]));
            lemma_flip(base.triangles@[t], cur2[t], o[t], edges[k]);
            lemma_flip(base.triangles@[u], cur2[u], o[u], edges[k]);
            lemma_forces(cur2[t], cur2[u], o[t], o[u], edges[k]);
        }
    }
}

/// Once all neighbours of the active triangle have been dealt with, it is
/// left behind with the others.
pub(crate) proof fn lemma_finish_active(
    base: &Mesh,
    cur: Seq<Triangle>,
    visited: Seq<bool>,
    queue: Seq<usize>,
    t: int,
    nbrs: Seq<usize>,
)
    requires
        settled(base, cur, visited, queue, t),
        paired(base, cur, visited, t, nbrs, nbrs.len() as int),
        0 <= t < cur.len(),
        cur.len() == base.triangles@.len(),
        forall|u: int|
            0 <= u < base.triangles@.len() && #[trigger] base.adjacent(t, u) ==> exists|b: int|
                0 <= b < nbrs.len() && #[trigger] nbrs[b] as int == u,
    ensures
        settled(base, cur, visited, queue, -1),
{
    reveal(settled);
    reveal(paired);
    assert forall|t1: int, u1: int, k: int|
        0 <= t1 < cur.len() && 0 <= u1 < cur.len() && t1 != u1 && 0 <= k < base.edges@.len()
            && visited[t1] && t1 != -1 && !waits(queue, t1) && #[trigger] base.shares(
            t1,
            u1,
            k,
        ) implies visited[u1] && opposed(cur[t1], cur[u1], base.edges@[k]) by {
        if t1 == t {
            assert(base.adjacent(t, u1));
            let b = choose|b: int| 0 <= b < nbrs.len() && #[trigger] nbrs[b] as int == u1;
            assert(base.shares(t, nbrs[b] as int, k));
        }
    }
}

/// Two visited triangles with a common side on which they are not opposed
/// show that what can be reached cannot be oriented.
pub(crate) proof fn lemma_conflict_not_orientable(
    base: &Mesh,
    cur: Seq<Triangle>,
    visited: Seq<bool>,
    t: int,
    u: int,
    k: int,
)
    requires
        base.wf(),
        flips_of(base.triangles@, cur, visited),
        forced(base, cur, visited),
        visited_reachable(base, visited),
        0 <= t < cur.len(),
        0 <= u < cur.len(),
        t != u,
        visited[t],
        visited[u],
        0 <= k < base.edges@.len(),
        base.shares(t, u, k),
        !opposed(cur[t], cur[u], base.edges@[k]),
    ensures
        !base.orientable_in_reach(),
{
    reveal(forced);
    reveal(flips_of);
    reveal(visited_reachable);
    if base.orientable_in_reach() {
        let o = choose|o: Seq<Triangle>| #[trigger] base.oriented_in_reach_by(o);
        assert(base.reachable(t));
        let e = base.edges@[k];
        assert(keeps_parity(o[t], cur[t]) == keeps_parity(o[0], cur[0]));
        assert(keeps_parity(o[u], cur[u]) == keeps_parity(o[0], cur[0]));
        assert(opposed(o[t], o[u], e));
        assert(base.triangle_ok(base.triangles@[t]));
        assert(base.triangle_ok(base.triangles@[u]));
        assert(base.edge_ok(e));
        assert(o[t].wf() && o[t].same_simplex(base.triangles@[t]));
        assert(o[u].wf() && o[u].same_simplex(base.triangles@[u]));
        assert(flip_of(base.triangles@[t], cur[t]));
        assert(flip_of(base.triangles@[u], cur[u]));
        lemma_flip(base.triangles@[t], cur[t], o[t], e);
        lemma_flip(base.triangles@[u], cur[u], o[u], e);
        lemma_conflict(cur[t], cur[u], o[t], o[u], e);
    }
}

/// At the start only the first triangle is visited, and it waits in the
/// queue.
pub(crate) proof fn lemma_start(base: &Mesh, visited: Seq<bool>, queue: Seq<usize>)
    requires
        base.wf(),
        base.triangles@.len() > 0,
        visited.len() == base.triangles@.len(),
        visited[0],
        forall|i: int| 1 <= i < visited.len() ==> !visited[i],
        queue.len() == 1,
        queue[0] == 0,
    ensures
        flips_of(base.triangles@, base.triangles@, visited),
        settled(base, base.triangles@, visited, queue, -1),
        forced(base, base.triangles@, visited),
        visited_reachable(base, visited),
{
    reveal(flips_of);
    reveal(settled);
    reveal(forced);
    reveal(visited_reachable);
    assert(queue[0] as int == 0);
    assert(waits(queue, 0));
    let walk = seq![0int];
    assert(base.is_walk(walk));
    assert(walk.last() == 0);
    assert forall|u: int| 0 <= u < visited.len() && #[trigger] visited[u] implies base.reachable(
        u,
    ) by {
        assert(u == 0);
    }
}

/// A visited triangle can be reached.
pub(crate) proof fn lemma_visited_is_reachable(base: &Mesh, visited: Seq<bool>, u: int)
    requires
        visited_reachable(base, visited),
        0 <= u < visited.len(),
        visited[u],
    ensures
        base.reachable(u),
{
    reveal(visited_reachable);
}

/// What the flips say of each triangle.
pub(crate) proof fn lemma_flips(base: Seq<Triangle>, cur: Seq<Triangle>, visited: Seq<bool>)
    requires
        flips_of(base, cur, visited),
    ensures
        cur.len() == base.len(),
        forall|j: int| 0 <= j < cur.len() ==> flip_of(base[j], #[trigger] cur[j]),
        forall|j: int| 0 <= j < cur.len() && !visited[j] ==> #[trigger] cur[j] == base[j],
{
    reveal(flips_of);
}

/// When the queue has run empty, the visited triangles are all that can be
/// reached, and any two of them with a common side are opposed on it.
pub(crate) proof fn lemma_drained(base: &Mesh, cur: Seq<Triangle>, visited: Seq<bool>,
    queue: Seq<usize>)
    requires
        queue.len() == 0,
        cur.len() == base.triangles@.len(),
        visited.len() == cur.len(),
        visited[0],
        settled(base, cur, visited, queue, -1),
        visited_reachable(base, visited),
    ensures
        forall|j: int| 0 <= j < visited.len() && !visited[j] ==> !#[trigger] base.reachable(j),
        forall|j: int| 0 <= j < visited.len() && visited[j] ==> #[trigger] base.reachable(j),
        forall|t: int, u: int, k: int|
            0 <= t < cur.len() && 0 <= u < cur.len() && t != u && 0 <= k < base.edges@.len()
                && visited[t] && #[trigger] base.shares(t, u, k) ==> opposed(
                cur[t],
                cur[u],
                base.edges@[k],
            ),
        forall|t: int, u: int, k: int|
            0 <= t < cur.len() && 0 <= u < cur.len() && t != u && 0 <= k < base.edges@.len()
                && base.reachable(t) && #[trigger] base.shares(t, u, k) ==> opposed(
                cur[t],
                cur[u],
                base.edges@[k],
            ),
{
    reveal(settled);
    reveal(visited_reachable);
    assert forall|t: int, u: int|
        0 <= t < visited.len() && 0 <= u < visited.len() && visited[t]
            && #[trigger] base.adjacent(t, u) implies visited[u] by {
        let k = choose|k: int| 0 <= k < base.edges@.len() && #[trigger] base.shares(t, u, k);
        assert(!waits(queue, t));
        assert(base.shares(t, u, k));
    }
    assert forall|j: int| 0 <= j < visited.len() && !visited[j] implies !#[trigger] base.reachable(
        j,
    ) by {
        if base.reachable(j) {
            let walk = choose|walk: Seq<int>| #[trigger] base.is_walk(walk) && walk.last() == j;
            lemma_closed_holds_reachable(base, visited, walk, walk.len() - 1);
        }
    }
    assert forall|t: int, u: int, k: int|
        0 <= t < cur.len() && 0 <= u < cur.len() && t != u && 0 <= k < base.edges@.len()
            && visited[t] && #[trigger] base.shares(t, u, k) implies opposed(
        cur[t],
        cur[u],
        base.edges@[k],
    ) by {
        assert(!waits(queue, t));
    }
    assert forall|t: int, u: int, k: int|
        0 <= t < cur.len() && 0 <= u < cur.len() && t != u && 0 <= k < base.edges@.len()
            && base.reachable(t) && #[trigger] base.shares(t, u, k) implies opposed(
        cur[t],
        cur[u],
        base.edges@[k],
    ) by {
        assert(visited[t]);
    }
}

/// What keeping the parity means.
pub(crate) proof fn lemma_keeps_parity(a: Triangle, b: Triangle)
    ensures
        keeps_parity(a, b) <==> a.is_even() == b.is_even(),
{
    reveal(keeps_parity);
}

/// Before any neighbour has been dealt with, none has to be paired.
pub(crate) proof fn lemma_none_paired(
    base: &Mesh,
    cur: Seq<Triangle>,
    visited: Seq<bool>,
    t: int,
    nbrs: Seq<usize>,
)
    ensures
        paired(base, cur, visited, t, nbrs, 0),
{
    reveal(paired);
}

} // verus!
