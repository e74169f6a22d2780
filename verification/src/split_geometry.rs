//! Partitioning a triangle soup into its maximal edge-connected bodies.
//!
//! The input is a flat buffer of binary32 bit patterns, nine per triangle
//! (three vertices of three coordinates each). An adjacency index over
//! directed edges is built once; an explicit-stack depth-first search then
//! discovers one body at a time, consulting the neighbor selector to cross
//! each edge, and every discovered body is copied verbatim into its own
//! output buffer. The partition covers every input triangle exactly once,
//! whatever the angle arithmetic returns.

use crate::adjacency::{EdgeAdjacencyIndex, TriangleInfo};
use crate::float_ops::{f32_gt, f32_mul, f32_sub, spec_f32_gt, spec_f32_mul, spec_f32_sub};
use crate::not_atan::{not_atan2, spec_not_atan2, NEG_PI_BITS, PI_BITS};
use crate::vector3::{spec_vec_cross, spec_vec_dot, spec_vec_length, spec_vec_sub, Edge, Vector3};
use vstd::prelude::*;
use vstd::seq_lib::group_to_multiset_ensures;

verus! {

broadcast use group_to_multiset_ensures;

/// The encoding of the binary32 value 0.001, the factor of the
/// near-parallel tolerance.
pub const TOLERANCE_FACTOR_BITS: u32 = 0x3a83_126f;

/// The encoding of binary32 negative infinity.
pub const NEG_INFINITY_BITS: u32 = 0xff80_0000;

/// A selector result that names no candidate.
pub const NO_TRIANGLE: usize = usize::MAX;

/// The effective angle of one candidate triangle around the shared edge:
/// the ranked dihedral angle between the current triangle's normal and the
/// candidate's, measured around `edge_vec`, except that an angle above the
/// near-PI threshold counts as -PI (the candidate is treated as
/// anti-parallel and so as belonging to a different body).
pub open spec fn spec_candidate_angle(
    cur_normal: Vector3,
    edge_vec: Vector3,
    threshold: u32,
    cand: TriangleInfo,
) -> u32 {
    let dot = spec_vec_dot(cur_normal, cand.tri_normal);
    let cross = spec_vec_dot(spec_vec_cross(cur_normal, cand.tri_normal), edge_vec);
    let angle = spec_not_atan2(cross, dot);
    if spec_f32_gt(angle, threshold) {
        NEG_PI_BITS
    } else {
        angle
    }
}

/// Left-to-right scan for the candidate with the strictly largest effective
/// angle, starting from the accumulated best; the first maximum wins.
pub open spec fn spec_select_from(
    cands: Seq<TriangleInfo>,
    cur_normal: Vector3,
    edge_vec: Vector3,
    threshold: u32,
    best_angle: u32,
    best_idx: usize,
) -> usize
    decreases cands.len(),
{
    if cands.len() == 0 {
        best_idx
    } else {
        let a = spec_candidate_angle(cur_normal, edge_vec, threshold, cands[0]);
        if spec_f32_gt(a, best_angle) {
            spec_select_from(cands.drop_first(), cur_normal, edge_vec, threshold, a, cands[0].tri_idx)
        } else {
            spec_select_from(cands.drop_first(), cur_normal, edge_vec, threshold, best_angle, best_idx)
        }
    }
}

/// The selector's choice among the triangles sharing the reverse of edge
/// `v1 -> v2` of triangle `(v1, v2, v3)`: the lone candidate when there is
/// exactly one, otherwise the candidate with the largest effective angle
/// (`NO_TRIANGLE` when no effective angle beats negative infinity, which
/// needs every candidate's angle to be NaN).
pub open spec fn spec_find_next(
    v1: Vector3,
    v2: Vector3,
    v3: Vector3,
    cands: Seq<TriangleInfo>,
) -> usize {
    if cands.len() == 1 {
        cands[0].tri_idx
    } else {
        let cur_normal = spec_vec_cross(spec_vec_sub(v2, v1), spec_vec_sub(v3, v1));
        let edge_vec = spec_vec_sub(v2, v1);
        let epsilon = spec_f32_mul(TOLERANCE_FACTOR_BITS, spec_vec_length(edge_vec));
        let threshold = spec_f32_sub(PI_BITS, epsilon);
        spec_select_from(cands, cur_normal, edge_vec, threshold, NEG_INFINITY_BITS, NO_TRIANGLE)
    }
}

/// Picks the triangle to continue into across the edge `v1 -> v2` of the
/// current triangle `(v1, v2, v3)`, from the candidates that share the
/// reverse edge `v2 -> v1`. A single candidate is returned at once; among
/// several, the one whose dihedral angle around the edge ranks largest wins,
/// with angles within the near-PI tolerance of a half turn forced to -PI so
/// that an almost-anti-parallel partner is never chosen over a genuine
/// continuation.
pub fn find_next_triangle_with_shared_edge(
    v1: Vector3,
    v2: Vector3,
    v3: Vector3,
    tris: &Vec<TriangleInfo>,
) -> (r: usize)
    ensures
        r == spec_find_next(v1, v2, v3, tris@),
        r == NO_TRIANGLE || exists|i: int| 0 <= i < tris@.len() && tris@[i].tri_idx == r,
{
    if tris.len() == 1 {
        return tris[0].tri_idx;
    }

    let cur_normal = (v2.sub(v1)).cross(v3.sub(v1));
    let edge_vec = v2.sub(v1);
    let epsilon = f32_mul(TOLERANCE_FACTOR_BITS, edge_vec.length());
    let threshold = f32_sub(PI_BITS, epsilon);

    let mut best_angle: u32 = NEG_INFINITY_BITS;
    let mut best_idx: usize = NO_TRIANGLE;
    let n = tris.len();
    let mut i: usize = 0;
    proof {
        assert(tris@.skip(0) =~= tris@);
    }
    while i < n
        invariant
            n == tris@.len(),
            0 <= i <= n,
            spec_select_from(tris@, cur_normal, edge_vec, threshold, NEG_INFINITY_BITS, NO_TRIANGLE)
                == spec_select_from(
                tris@.skip(i as int),
                cur_normal,
                edge_vec,
                threshold,
                best_angle,
                best_idx,
            ),
            best_idx == NO_TRIANGLE || exists|j: int|
                0 <= j < tris@.len() && tris@[j].tri_idx == best_idx,
        decreases n - i,
    {
        proof {
            assert(tris@.skip(i as int).len() == n - i);
            assert(tris@.skip(i as int)[0] == tris@[i as int]);
            assert(tris@.skip(i as int).drop_first() =~= tris@.skip(i as int + 1));
        }
        let cand = &tris[i];
        let dot = cur_normal.dot(cand.tri_normal);
        let cross = cur_normal.cross(cand.tri_normal).dot(edge_vec);
        let mut angle = not_atan2(cross, dot);
        if f32_gt(angle, threshold) {
            angle = NEG_PI_BITS;
        }
        proof {
            assert(angle == spec_candidate_angle(cur_normal, edge_vec, threshold, tris@[i as int]));
        }
        if f32_gt(angle, best_angle) {
            best_angle = angle;
            best_idx = cand.tri_idx;
        }
        i += 1;
    }
    proof {
        assert(tris@.skip(n as int) =~= Seq::<TriangleInfo>::empty());
    }
    best_idx
}

/// The nine coordinates of triangle `i` of a flat buffer.
pub open spec fn chunk_of(s: Seq<u32>, i: int) -> Seq<u32> {
    s.subrange(9 * i, 9 * i + 9)
}

/// A flat buffer split into its whole nine-coordinate triangles.
pub open spec fn triangle_chunks(s: Seq<u32>) -> Seq<Seq<u32>> {
    Seq::new((s.len() / 9) as nat, |i: int| chunk_of(s, i))
}

/// The triangles of `s` at the given indices, in that order.
pub open spec fn chunks_at(s: Seq<u32>, idxs: Seq<usize>) -> Seq<Seq<u32>> {
    idxs.map_values(|t: usize| chunk_of(s, t as int))
}

/// The contents of a list of output buffers.
pub open spec fn parts_views(rs: Seq<Vec<u32>>) -> Seq<Seq<u32>> {
    rs.map_values(|v: Vec<u32>| v@)
}

/// All triangles of all parts, in order.
pub open spec fn parts_triangle_chunks(ps: Seq<Seq<u32>>) -> Seq<Seq<u32>>
    decreases ps.len(),
{
    if ps.len() == 0 {
        Seq::empty()
    } else {
        triangle_chunks(ps[0]) + parts_triangle_chunks(ps.drop_first())
    }
}

proof fn lemma_parts_chunks_push(ps: Seq<Seq<u32>>, p: Seq<u32>)
    ensures
        parts_triangle_chunks(ps.push(p)) == parts_triangle_chunks(ps) + triangle_chunks(p),
    decreases ps.len(),
{
    if ps.len() == 0 {
        assert(ps.push(p).drop_first() =~= Seq::<Seq<u32>>::empty());
        assert(parts_triangle_chunks(ps.push(p).drop_first()) == Seq::<Seq<u32>>::empty());
        assert(ps.push(p)[0] == p);
        assert(parts_triangle_chunks(ps.push(p)) == triangle_chunks(p) + Seq::<Seq<u32>>::empty());
        assert(triangle_chunks(p) + Seq::<Seq<u32>>::empty() =~= parts_triangle_chunks(ps)
            + triangle_chunks(p));
    } else {
        assert(ps.push(p).drop_first() =~= ps.drop_first().push(p));
        lemma_parts_chunks_push(ps.drop_first(), p);
        assert(parts_triangle_chunks(ps.push(p)) == triangle_chunks(ps[0]) + (parts_triangle_chunks(
            ps.drop_first(),
        ) + triangle_chunks(p)));
        assert(triangle_chunks(ps[0]) + (parts_triangle_chunks(ps.drop_first()) + triangle_chunks(p))
            =~= parts_triangle_chunks(ps) + triangle_chunks(p));
    }
}

/// A duplicate-free sequence of indices below `n` has at most `n` elements.
proof fn lemma_bounded_no_dup_len(s: Seq<usize>, n: usize)
    requires
        s.no_duplicates(),
        forall|j: int| 0 <= j < s.len() ==> (#[trigger] s[j]) < n,
    ensures
        s.len() <= n,
{
    broadcast use vstd::set::group_set_axioms;

    let si = s.map_values(|x: usize| x as int);
    assert(si.no_duplicates());
    s.map_values(|x: usize| x as int).unique_seq_to_set();
    vstd::set_lib::lemma_int_range(0, n as int);
    assert(si.to_set().subset_of(vstd::set_lib::set_int_range(0, n as int))) by {
        assert forall|x: int| si.to_set().contains(x) implies 0 <= x < n by {
            let k = choose|k: int| 0 <= k < si.len() && si[k] == x;
            assert(s[k] < n);
        }
    }
    vstd::set_lib::lemma_len_subset(si.to_set(), vstd::set_lib::set_int_range(0, n as int));
}

/// Two index sequences with the same multiset of indices pick out the same
/// multiset of triangles.
proof fn lemma_chunks_at_multiset_eq(s: Seq<u32>, s1: Seq<usize>, s2: Seq<usize>)
    requires
        s1.to_multiset() == s2.to_multiset(),
    ensures
        chunks_at(s, s1).to_multiset() == chunks_at(s, s2).to_multiset(),
    decreases s1.len(),
{
    broadcast use vstd::multiset::group_multiset_axioms;

    if s1.len() == 0 {
        assert(s2.to_multiset().len() == 0);
        assert(s2.len() == 0);
        assert(chunks_at(s, s1) =~= chunks_at(s, s2));
    } else {
        let a = s1.last();
        let li = s1.len() - 1;
        assert(s1.contains(a));
        assert(s1.to_multiset().count(a) > 0);
        assert(s2.to_multiset().count(a) > 0);
        assert(s2.contains(a));
        let i = choose|i: int| 0 <= i < s2.len() && s2[i] == a;
        assert(s1.drop_last() =~= s1.remove(li));
        assert(s1.remove(li).to_multiset() == s1.to_multiset().remove(a));
        assert(s2.remove(i).to_multiset() == s2.to_multiset().remove(a));
        lemma_chunks_at_multiset_eq(s, s1.drop_last(), s2.remove(i));

        let b = chunk_of(s, a as int);
        let m1 = chunks_at(s, s1);
        let m2 = chunks_at(s, s2);
        assert(chunks_at(s, s1.drop_last()) =~= m1.remove(li));
        assert(chunks_at(s, s2.remove(i)) =~= m2.remove(i));
        assert(m1[li] == b);
        assert(m1.remove(li).to_multiset() == m1.to_multiset().remove(b));
        assert(m2[i] == b);
        assert(m2.remove(i).to_multiset() == m2.to_multiset().remove(b));
        assert(m1.contains(b));
        assert(m1.to_multiset().count(b) > 0);
        assert(m2.contains(b));
        assert(m2.to_multiset().count(b) > 0);
        assert forall|c: Seq<u32>| m1.to_multiset().count(c) == m2.to_multiset().count(c) by {
            if c == b {
                assert(m1.to_multiset().remove(b).count(c) == m2.to_multiset().remove(b).count(c));
            } else {
                assert(m1.to_multiset().remove(b).count(c) == m1.to_multiset().count(c));
                assert(m2.to_multiset().remove(b).count(c) == m2.to_multiset().count(c));
            }
        }
        assert(m1.to_multiset() =~= m2.to_multiset());
    }
}

/// The indices 0 up to `n`, in order.
pub open spec fn identity_indices(n: usize) -> Seq<usize> {
    Seq::new(n as nat, |i: int| i as usize)
}

/// A duplicate-free sequence of indices below `n` that contains every such
/// index is a permutation of them.
proof fn lemma_cover_multiset(n: usize, emitted: Seq<usize>)
    requires
        emitted.no_duplicates(),
        forall|j: int| 0 <= j < emitted.len() ==> (#[trigger] emitted[j]) < n,
        forall|i: usize| i < n ==> emitted.contains(i),
    ensures
        emitted.to_multiset() == identity_indices(n).to_multiset(),
{
    let ids = identity_indices(n);
    assert(ids.no_duplicates());
    emitted.lemma_multiset_has_no_duplicates();
    ids.lemma_multiset_has_no_duplicates();
    assert forall|x: usize| emitted.to_multiset().count(x) == ids.to_multiset().count(x) by {
        if x < n {
            assert(emitted.contains(x));
            assert(ids[x as int] == x);
            assert(ids.contains(x));
            assert(emitted.to_multiset().count(x) > 0);
            assert(ids.to_multiset().count(x) > 0);
            assert(emitted.to_multiset().count(x) == 1);
            assert(ids.to_multiset().count(x) == 1);
        } else {
            assert(!emitted.contains(x)) by {
                if emitted.contains(x) {
                    let k = choose|k: int| 0 <= k < emitted.len() && emitted[k] == x;
                    assert(emitted[k] < n);
                }
            }
            assert(!ids.contains(x)) by {
                if ids.contains(x) {
                    let k = choose|k: int| 0 <= k < ids.len() && ids[k] == x;
                }
            }
            assert(emitted.to_multiset().count(x) == 0);
            assert(ids.to_multiset().count(x) == 0);
        }
    }
    assert(emitted.to_multiset() =~= ids.to_multiset());
}

/// The state of the depth-first traversal: `emitted` are the indices of the
/// triangles already copied into finished bodies, `part` those of the body
/// being discovered, `stack` the worklist. A triangle is marked visited
/// exactly when it stands in one of the three, and it stands in at most
/// one place in all of them together.
pub open spec fn traversal_inv(
    n: usize,
    visited: Seq<bool>,
    emitted: Seq<usize>,
    part: Seq<usize>,
    stack: Seq<usize>,
) -> bool {
    &&& visited.len() == n
    &&& emitted.no_duplicates()
    &&& part.no_duplicates()
    &&& stack.no_duplicates()
    &&& forall|j: int| 0 <= j < emitted.len() ==> (#[trigger] emitted[j]) < n
    &&& forall|j: int| 0 <= j < part.len() ==> (#[trigger] part[j]) < n
    &&& forall|j: int| 0 <= j < stack.len() ==> (#[trigger] stack[j]) < n
    &&& forall|j1: int, j2: int|
        0 <= j1 < emitted.len() && 0 <= j2 < part.len() ==> emitted[j1] != part[j2]
    &&& forall|j1: int, j2: int|
        0 <= j1 < emitted.len() && 0 <= j2 < stack.len() ==> emitted[j1] != stack[j2]
    &&& forall|j1: int, j2: int|
        0 <= j1 < part.len() && 0 <= j2 < stack.len() ==> part[j1] != stack[j2]
    &&& forall|i: int|
        0 <= i < n ==> (#[trigger] visited[i] == (emitted.contains(i as usize) || part.contains(
            i as usize,
        ) || stack.contains(i as usize)))
    &&& emitted.len() + part.len() + stack.len() <= n
}

/// Marking an unvisited triangle and putting it on the worklist keeps the
/// traversal state consistent.
proof fn lemma_push_transition(
    n: usize,
    visited: Seq<bool>,
    emitted: Seq<usize>,
    part: Seq<usize>,
    stack: Seq<usize>,
    x: usize,
)
    requires
        traversal_inv(n, visited, emitted, part, stack),
        x < n,
        !visited[x as int],
    ensures
        traversal_inv(n, visited.update(x as int, true), emitted, part, stack.push(x)),
{
    let stack2 = stack.push(x);
    let visited2 = visited.update(x as int, true);
    assert(!stack.contains(x) && !part.contains(x) && !emitted.contains(x));
    assert forall|j1: int, j2: int| 0 <= j1 < j2 < stack2.len() implies stack2[j1] != stack2[j2] by {
        if j2 == stack.len() {
            assert(stack2[j2] == x);
            if stack2[j1] == x {
                assert(stack.contains(x));
            }
        }
    }
    assert(stack2.no_duplicates());
    assert forall|i: int|
        0 <= i < n implies (#[trigger] visited2[i] == (emitted.contains(i as usize)
        || part.contains(i as usize) || stack2.contains(i as usize))) by {
        if i == x as int {
            assert(stack2[stack.len() as int] == x);
            assert(stack2.contains(x));
        } else {
            assert(visited2[i] == visited[i]);
            assert(stack2.contains(i as usize) == stack.contains(i as usize)) by {
                if stack2.contains(i as usize) {
                    let k = choose|k: int| 0 <= k < stack2.len() && stack2[k] == i as usize;
                    assert(k < stack.len());
                    assert(stack[k] == i as usize);
                } else {
                    if stack.contains(i as usize) {
                        let k = choose|k: int| 0 <= k < stack.len() && stack[k] == i as usize;
                        assert(stack2[k] == i as usize);
                    }
                }
            }
        }
    }
    assert(emitted.len() + part.len() + stack2.len() <= n) by {
        let all = emitted + part + stack2;
        vstd::seq_lib::lemma_no_dup_in_concat(emitted, part);
        assert forall|j1: int, j2: int|
            0 <= j1 < (emitted + part).len() && 0 <= j2 < stack2.len() implies (emitted + part)[j1]
            != stack2[j2] by {
            if j2 < stack.len() {
                assert(stack2[j2] == stack[j2]);
            } else {
                assert(stack2[j2] == x);
            }
            if j1 < emitted.len() {
                assert((emitted + part)[j1] == emitted[j1]);
            } else {
                assert((emitted + part)[j1] == part[j1 - emitted.len()]);
            }
        }
        vstd::seq_lib::lemma_no_dup_in_concat(emitted + part, stack2);
        assert(all.no_duplicates());
        assert(forall|j: int| 0 <= j < all.len() ==> (#[trigger] all[j]) < n) by {
            assert forall|j: int| 0 <= j < all.len() implies (#[trigger] all[j]) < n by {
                if j < emitted.len() {
                    assert(all[j] == emitted[j]);
                } else if j < emitted.len() + part.len() {
                    assert(all[j] == part[j - emitted.len()]);
                } else {
                    assert(all[j] == stack2[j - emitted.len() - part.len()]);
                    if j - emitted.len() - part.len() < stack.len() {
                        assert(stack2[j - emitted.len() - part.len()] == stack[j - emitted.len()
                            - part.len()]);
                    }
                }
            }
        }
        lemma_bounded_no_dup_len(all, n);
    }
}

/// Popping the worklist's top into the current body keeps the traversal
/// state consistent.
proof fn lemma_pop_transition(
    n: usize,
    visited: Seq<bool>,
    emitted: Seq<usize>,
    part: Seq<usize>,
    stack: Seq<usize>,
)
    requires
        traversal_inv(n, visited, emitted, part, stack),
        stack.len() > 0,
    ensures
        traversal_inv(
            n,
            visited,
            emitted,
            part.push(stack.last()),
            stack.drop_last(),
        ),
{
    let t = stack.last();
    let part2 = part.push(t);
    let stack2 = stack.drop_last();
    assert(!part.contains(t));
    assert forall|j1: int, j2: int| 0 <= j1 < j2 < part2.len() implies part2[j1] != part2[j2] by {
        if j2 == part.len() {
            if part2[j1] == t {
                assert(part.contains(t));
            }
        }
    }
    assert(!stack2.contains(t)) by {
        if stack2.contains(t) {
            let k = choose|k: int| 0 <= k < stack2.len() && stack2[k] == t;
            assert(stack[k] == t);
            assert(stack[stack.len() - 1] == t);
        }
    }
    assert forall|i: int|
        0 <= i < n implies (#[trigger] visited[i] == (emitted.contains(i as usize)
        || part2.contains(i as usize) || stack2.contains(i as usize))) by {
        let u = i as usize;
        if u == t {
            assert(part2[part.len() as int] == t);
            assert(part2.contains(t));
            assert(stack.contains(t));
        } else {
            assert(part2.contains(u) == part.contains(u)) by {
                if part2.contains(u) {
                    let k = choose|k: int| 0 <= k < part2.len() && part2[k] == u;
                    assert(k < part.len());
                    assert(part[k] == u);
                } else if part.contains(u) {
                    let k = choose|k: int| 0 <= k < part.len() && part[k] == u;
                    assert(part2[k] == u);
                }
            }
            assert(stack2.contains(u) == stack.contains(u)) by {
                if stack2.contains(u) {
                    let k = choose|k: int| 0 <= k < stack2.len() && stack2[k] == u;
                    assert(stack[k] == u);
                } else if stack.contains(u) {
                    let k = choose|k: int| 0 <= k < stack.len() && stack[k] == u;
                    assert(k != stack.len() - 1);
                    assert(stack2[k] == u);
                }
            }
        }
    }
}

/// Looks up the reverse of the directed edge `v1 -> v2` of the current
/// triangle `(v1, v2, v3)`; when triangles share it, asks the selector for
/// the continuation triangle, and when that triangle is unvisited, marks it
/// and puts it on the worklist.
fn visit_edge(
    index: &EdgeAdjacencyIndex,
    stack: &mut Vec<usize>,
    visited: &mut Vec<bool>,
    v1: Vector3,
    v2: Vector3,
    v3: Vector3,
    n: usize,
    Ghost(emitted): Ghost<Seq<usize>>,
    Ghost(part): Ghost<Seq<usize>>,
)
    requires
        index.wf(),
        traversal_inv(n, old(visited)@, emitted, part, old(stack)@),
    ensures
        traversal_inv(n, final(visited)@, emitted, part, final(stack)@),
        final(stack)@.len() >= old(stack)@.len(),
        forall|i: int| 0 <= i < n && old(visited)@[i] ==> final(visited)@[i],
{
    let reverse = Edge::new(v2, v1);
    match index.get(&reverse) {
        None => {},
        Some(tris) => {
            let next = find_next_triangle_with_shared_edge(v1, v2, v3, tris);
            if next < n {
                if !visited[next] {
                    let ghost vis0 = visited@;
                    let ghost stk0 = stack@;
                    stack.push(next);
                    visited[next] = true;
                    proof {
                        lemma_push_transition(n, vis0, emitted, part, stk0, next);
                    }
                }
            }
        },
    }
}

/// Closing the current body moves its triangles into the emitted list and
/// keeps the traversal state consistent.
proof fn lemma_emit_transition(
    n: usize,
    visited: Seq<bool>,
    emitted: Seq<usize>,
    part: Seq<usize>,
)
    requires
        traversal_inv(n, visited, emitted, part, Seq::empty()),
    ensures
        traversal_inv(n, visited, emitted + part, Seq::empty(), Seq::empty()),
{
    let em2 = emitted + part;
    vstd::seq_lib::lemma_no_dup_in_concat(emitted, part);
    assert(forall|j: int| 0 <= j < em2.len() ==> (#[trigger] em2[j]) < n) by {
        assert forall|j: int| 0 <= j < em2.len() implies (#[trigger] em2[j]) < n by {
            if j < emitted.len() {
                assert(em2[j] == emitted[j]);
            } else {
                assert(em2[j] == part[j - emitted.len()]);
            }
        }
    }
    assert forall|i: int|
        0 <= i < n implies (#[trigger] visited[i] == (em2.contains(i as usize) || Seq::<
        usize,
    >::empty().contains(i as usize) || Seq::<usize>::empty().contains(i as usize))) by {
        let u = i as usize;
        assert(em2.contains(u) == (emitted.contains(u) || part.contains(u))) by {
            if em2.contains(u) {
                let k = choose|k: int| 0 <= k < em2.len() && em2[k] == u;
                if k < emitted.len() {
                    assert(emitted[k] == u);
                } else {
                    assert(part[k - emitted.len()] == u);
                }
            } else {
                if emitted.contains(u) {
                    let k = choose|k: int| 0 <= k < emitted.len() && emitted[k] == u;
                    assert(em2[k] == u);
                }
                if part.contains(u) {
                    let k = choose|k: int| 0 <= k < part.len() && part[k] == u;
                    assert(em2[k + emitted.len()] == u);
                }
            }
        }
    }
}

/// Splits a triangle soup into its maximal edge-connected bodies.
///
/// `pos` holds nine binary32 bit patterns per triangle: three vertices of
/// three coordinates each, in a fixed winding order. Each returned buffer
/// holds the triangles of one body, copied verbatim; together they hold
/// every input triangle exactly once. A buffer whose length is not a
/// multiple of nine, and an empty buffer, yield no bodies at all — and
/// those are the only inputs that do.
pub fn split_disjoint_geometry(pos: &Vec<u32>) -> (parts: Vec<Vec<u32>>)
    ensures
        pos@.len() % 9 == 0 ==> parts_triangle_chunks(parts_views(parts@)).to_multiset()
            == triangle_chunks(pos@).to_multiset(),
        (parts@.len() == 0) <==> (pos@.len() % 9 != 0 || pos@.len() == 0),
        forall|k: int|
            0 <= k < parts@.len() ==> (#[trigger] parts@[k])@.len() % 9 == 0 && parts@[k]@.len()
                > 0,
{
    let mut parts: Vec<Vec<u32>> = Vec::new();
    if pos.len() % 9 != 0 {
        return parts;
    }
    let n = pos.len() / 9;
    if n == 0 {
        proof {
            assert(pos@.len() == 0);
            assert(triangle_chunks(pos@) =~= Seq::<Seq<u32>>::empty());
            assert(parts_views(parts@) =~= Seq::<Seq<u32>>::empty());
            assert(parts_triangle_chunks(parts_views(parts@)) == Seq::<Seq<u32>>::empty());
            assert(parts_triangle_chunks(parts_views(parts@)).to_multiset() =~= triangle_chunks(
                pos@,
            ).to_multiset());
        }
        return parts;
    }
    proof {
        assert(9 * (n as int) == pos@.len());
        assert(n <= usize::MAX / 9);
    }

    // Build the adjacency index: three directed edges per triangle, each
    // carrying the triangle's index and cached normal.
    let mut index = EdgeAdjacencyIndex::new();
    let mut t: usize = 0;
    while t < n
        invariant
            index.wf(),
            t <= n,
            n <= usize::MAX / 9,
            9 * (n as int) == pos@.len(),
        decreases n - t,
    {
        let off = t * 9;
        let v1 = Vector3::new(pos[off], pos[off + 1], pos[off + 2]);
        let v2 = Vector3::new(pos[off + 3], pos[off + 4], pos[off + 5]);
        let v3 = Vector3::new(pos[off + 6], pos[off + 7], pos[off + 8]);
        let tri_normal = (v2.sub(v1)).cross(v3.sub(v1));
        let info = TriangleInfo { tri_idx: t, tri_normal };
        index.insert(Edge::new(v1, v2), info);
        index.insert(Edge::new(v2, v3), info);
        index.insert(Edge::new(v3, v1), info);
        t = t + 1;
    }

    let mut visited: Vec<bool> = Vec::new();
    let mut k: usize = 0;
    while k < n
        invariant
            visited@.len() == k,
            k <= n,
            forall|j: int| 0 <= j < k ==> !(#[trigger] visited@[j]),
        decreases n - k,
    {
        visited.push(false);
        k = k + 1;
    }

    let mut stack: Vec<usize> = Vec::new();
    let mut part: Vec<usize> = Vec::new();
    let ghost mut emitted: Seq<usize> = Seq::empty();
    proof {
        assert(traversal_inv(n, visited@, emitted, part@, stack@));
    }

    let mut start: usize = 0;
    while start < n
        invariant
            index.wf(),
            9 * (n as int) == pos@.len(),
            n > 0,
            n <= usize::MAX / 9,
            start <= n,
            traversal_inv(n, visited@, emitted, part@, stack@),
            part@.len() == 0,
            stack@.len() == 0,
            forall|i: int| 0 <= i < start ==> visited@[i],
            parts_triangle_chunks(parts_views(parts@)) == chunks_at(pos@, emitted),
            forall|k2: int|
                0 <= k2 < parts@.len() ==> (#[trigger] parts@[k2])@.len() % 9 == 0
                    && parts@[k2]@.len() > 0,
            parts@.len() == 0 <==> emitted.len() == 0,
        decreases n - start,
    {
        if !visited[start] {
            let ghost vis0 = visited@;
            let ghost stk0 = stack@;
            stack.push(start);
            visited[start] = true;
            proof {
                lemma_push_transition(n, vis0, emitted, part@, stk0, start);
            }

            // Discover one body: depth-first over shared edges.
            while stack.len() > 0
                invariant
                    index.wf(),
                    9 * (n as int) == pos@.len(),
                    n <= usize::MAX / 9,
                    start < n,
                    traversal_inv(n, visited@, emitted, part@, stack@),
                    part@.len() + stack@.len() > 0,
                    forall|i: int| 0 <= i <= start ==> visited@[i],
                decreases
                        2 * (n as int) - 2 * emitted.len() - 2 * part@.len() - stack@.len(),
            {
                let ghost stk0 = stack@;
                let ghost part0 = part@;
                let next_tri = stack.pop().unwrap();
                part.push(next_tri);
                proof {
                    lemma_pop_transition(n, visited@, emitted, part0, stk0);
                    assert(stk0.last() == next_tri);
                    assert(stack@ =~= stk0.drop_last());
                }

                let off = next_tri * 9;
                let v1 = Vector3::new(pos[off], pos[off + 1], pos[off + 2]);
                let v2 = Vector3::new(pos[off + 3], pos[off + 4], pos[off + 5]);
                let v3 = Vector3::new(pos[off + 6], pos[off + 7], pos[off + 8]);

                visit_edge(&index, &mut stack, &mut visited, v1, v2, v3, n, Ghost(emitted), Ghost(part@));
                visit_edge(&index, &mut stack, &mut visited, v2, v3, v1, n, Ghost(emitted), Ghost(part@));
                visit_edge(&index, &mut stack, &mut visited, v3, v1, v2, n, Ghost(emitted), Ghost(part@));
            }

            // Copy the body's triangles, in discovery order, into their own
            // buffer.
            let m = part.len();
            let mut out: Vec<u32> = Vec::new();
            let mut i2: usize = 0;
            while i2 < m
                invariant
                    m == part@.len(),
                    i2 <= m,
                    9 * (n as int) == pos@.len(),
                    n <= usize::MAX / 9,
                    forall|j: int| 0 <= j < part@.len() ==> (#[trigger] part@[j]) < n,
                    out@.len() == 9 * i2,
                    forall|j: int|
                        0 <= j < i2 ==> #[trigger] chunk_of(out@, j) == chunk_of(
                            pos@,
                            part@[j] as int,
                        ),
                decreases m - i2,
            {
                let ghost out0 = out@;
                let t3 = part[i2];
                let src = t3 * 9;
                out.push(pos[src]);
                out.push(pos[src + 1]);
                out.push(pos[src + 2]);
                out.push(pos[src + 3]);
                out.push(pos[src + 4]);
                out.push(pos[src + 5]);
                out.push(pos[src + 6]);
                out.push(pos[src + 7]);
                out.push(pos[src + 8]);
                proof {
                    assert(out@.len() == 9 * (i2 + 1));
                    assert(forall|p: int| 0 <= p < out0.len() ==> out@[p] == out0[p]);
                    assert forall|j: int|
                        0 <= j < i2 + 1 implies #[trigger] chunk_of(out@, j) == chunk_of(
                        pos@,
                        part@[j] as int,
                    ) by {
                        if j < i2 {
                            assert(chunk_of(out@, j) =~= chunk_of(out0, j));
                        } else {
                            assert forall|p: int| 0 <= p < 9 implies chunk_of(out@, j)[p]
                                == chunk_of(pos@, t3 as int)[p] by {
                                assert(chunk_of(out@, j)[p] == out@[9 * (i2 as int) + p]);
                                assert(chunk_of(pos@, t3 as int)[p] == pos@[9 * (t3 as int) + p]);
                            }
                            assert(chunk_of(out@, j) =~= chunk_of(pos@, part@[j] as int));
                        }
                    }
                }
                i2 = i2 + 1;
            }

            let ghost parts0 = parts@;
            let ghost part_snapshot = part@;
            let ghost emitted0 = emitted;
            parts.push(out);
            part.clear();
            proof {
                lemma_emit_transition(n, visited@, emitted0, part_snapshot);
                emitted = emitted0 + part_snapshot;

                // The new buffer holds exactly the body's triangles.
                assert(triangle_chunks(out@) =~= chunks_at(pos@, part_snapshot)) by {
                    assert(out@.len() == 9 * part_snapshot.len());
                    assert(out@.len() / 9 == part_snapshot.len());
                    assert forall|j: int|
                        0 <= j < part_snapshot.len() implies triangle_chunks(out@)[j] == chunks_at(
                        pos@,
                        part_snapshot,
                    )[j] by {
                        assert(chunk_of(out@, j) == chunk_of(pos@, part_snapshot[j] as int));
                    }
                }

                // Account for the new buffer in the running concatenation.
                assert(parts_views(parts@) =~= parts_views(parts0).push(out@));
                lemma_parts_chunks_push(parts_views(parts0), out@);
                assert(chunks_at(pos@, emitted) =~= chunks_at(pos@, emitted0) + chunks_at(
                    pos@,
                    part_snapshot,
                ));
                assert(parts_triangle_chunks(parts_views(parts@)) == chunks_at(pos@, emitted));
                assert(parts@[parts0.len() as int]@.len() == 9 * part_snapshot.len());
            }
        }
        start = start + 1;
    }

    proof {
        assert forall|i: usize| i < n implies emitted.contains(i) by {
            assert(visited@[i as int]);
        }
        lemma_cover_multiset(n, emitted);
        lemma_chunks_at_multiset_eq(pos@, emitted, identity_indices(n));
        assert(chunks_at(pos@, identity_indices(n)) =~= triangle_chunks(pos@)) by {
            assert(pos@.len() / 9 == n as int);
        }
        assert(emitted.contains(0usize)) by {
            assert(visited@[0]);
        }
        assert(emitted.len() > 0);
    }
    parts
}

} // verus!
