//! The edge adjacency index: a mapping from every directed edge occurring
//! in the input to the ordered list of triangles that contain it.
//!
//! The index is a hash table keyed by a 64-bit mix of the edge's six
//! coordinate bit patterns; each table slot holds the buckets of all edges
//! that share that mix, and each bucket holds one edge's triangle list in
//! insertion order. Abstractly the index is a map from `Edge` to
//! `Seq<TriangleInfo>`, and the operations are specified against that map.

use crate::vector3::{Edge, Vector3};
use std::collections::HashMap;
use vstd::prelude::*;

verus! {

broadcast use vstd::std_specs::hash::group_hash_axioms;

/// A triangle identified by its index into the input buffer, carried
/// together with its (unnormalized) normal, computed once.
#[derive(Clone, Copy, Debug)]
pub struct TriangleInfo {
    pub tri_idx: usize,
    pub tri_normal: Vector3,
}

/// The FNV-1a 64-bit offset basis.
pub const FNV_OFFSET: u64 = 0xcbf2_9ce4_8422_2325;

/// The FNV-1a 64-bit prime.
pub const FNV_PRIME: u64 = 0x0000_0100_0000_01b3;

/// One FNV-1a step: fold one coordinate's bit pattern into the running mix.
pub open spec fn spec_mix(h: u64, w: u32) -> u64 {
    (h ^ (w as u64)).wrapping_mul(FNV_PRIME)
}

/// The 64-bit mix of an edge's six coordinate bit patterns. It only spreads
/// edges over table slots: two distinct edges may share a mix, and the
/// buckets within a slot tell them apart by exact equality.
pub open spec fn spec_edge_hash(e: Edge) -> u64 {
    spec_mix(
        spec_mix(
            spec_mix(spec_mix(spec_mix(spec_mix(FNV_OFFSET, e.from.x), e.from.y), e.from.z), e.to.x),
            e.to.y,
        ),
        e.to.z,
    )
}

fn edge_hash(e: &Edge) -> (r: u64)
    ensures
        r == spec_edge_hash(*e),
{
    let mut h: u64 = FNV_OFFSET;
    h = (h ^ (e.from.x as u64)).wrapping_mul(FNV_PRIME);
    h = (h ^ (e.from.y as u64)).wrapping_mul(FNV_PRIME);
    h = (h ^ (e.from.z as u64)).wrapping_mul(FNV_PRIME);
    h = (h ^ (e.to.x as u64)).wrapping_mul(FNV_PRIME);
    h = (h ^ (e.to.y as u64)).wrapping_mul(FNV_PRIME);
    h = (h ^ (e.to.z as u64)).wrapping_mul(FNV_PRIME);
    h
}

/// One edge's entry within a table slot: the edge itself and the triangles
/// holding it, in insertion order.
struct EdgeBucket {
    edge: Edge,
    tris: Vec<TriangleInfo>,
}

/// Whether some bucket in the slot's list carries this edge.
spec fn has_edge(bs: Seq<EdgeBucket>, e: Edge) -> bool {
    exists|i: int| 0 <= i < bs.len() && bs[i].edge == e
}

/// The position of this edge's bucket in the slot's list (meaningful only
/// when `has_edge` holds and the list carries each edge at most once).
spec fn bucket_index(bs: Seq<EdgeBucket>, e: Edge) -> int {
    choose|i: int| 0 <= i < bs.len() && bs[i].edge == e
}

/// A well-formed slot list for slot `h`: every bucket's edge mixes to `h`,
/// and no two buckets carry the same edge.
spec fn slot_wf(bs: Seq<EdgeBucket>, h: u64) -> bool {
    &&& forall|i: int| 0 <= i < bs.len() ==> spec_edge_hash(#[trigger] bs[i].edge) == h
    &&& forall|i: int, j: int| 0 <= i < j < bs.len() ==> bs[i].edge != bs[j].edge
}

/// Maps every directed edge seen in the input to the list of triangles that
/// contain it, in insertion order.
pub struct EdgeAdjacencyIndex {
    slots: HashMap<u64, Vec<EdgeBucket>>,
}

/// The entry of `m` at `e`, or the empty sequence when `e` is absent.
pub open spec fn entry_or_empty(m: Map<Edge, Seq<TriangleInfo>>, e: Edge) -> Seq<TriangleInfo> {
    if m.contains_key(e) {
        m[e]
    } else {
        Seq::empty()
    }
}

impl View for EdgeAdjacencyIndex {
    type V = Map<Edge, Seq<TriangleInfo>>;

    closed spec fn view(&self) -> Map<Edge, Seq<TriangleInfo>> {
        Map::new(
            |e: Edge| self.slots@.contains_key(spec_edge_hash(e)) && has_edge(
                self.slots@[spec_edge_hash(e)]@,
                e,
            ),
            |e: Edge|
                {
                    let bs = self.slots@[spec_edge_hash(e)]@;
                    bs[bucket_index(bs, e)].tris@
                },
        )
    }
}

impl EdgeAdjacencyIndex {
    /// All slot lists are well formed.
    pub closed spec fn wf(self) -> bool {
        forall|h: u64| self.slots@.contains_key(h) ==> slot_wf(#[trigger] self.slots@[h]@, h)
    }

    pub fn new() -> (r: EdgeAdjacencyIndex)
        ensures
            r.wf(),
            r@ == Map::<Edge, Seq<TriangleInfo>>::empty(),
    {
        let r = EdgeAdjacencyIndex { slots: HashMap::new() };
        proof {
            assert(r@ =~= Map::<Edge, Seq<TriangleInfo>>::empty());
        }
        r
    }

    /// The triangle list of `e`, or `None` when no triangle holds `e`.
    pub fn get(&self, e: &Edge) -> (r: Option<&Vec<TriangleInfo>>)
        requires
            self.wf(),
        ensures
            match r {
                Some(tris) => self@.contains_key(*e) && tris@ == self@[*e],
                None => !self@.contains_key(*e),
            },
    {
        let h = edge_hash(e);
        match self.slots.get(&h) {
            None => None,
            Some(bs) => {
                proof {
                    assert(self.slots@.contains_key(h) && self.slots@[h] == *bs);
                    assert(slot_wf(bs@, h));
                }
                let ghost bseq = bs@;
                let mut i: usize = 0;
                while i < bs.len()
                    invariant
                        self.wf(),
                        h == spec_edge_hash(*e),
                        self.slots@.contains_key(h),
                        self.slots@[h]@ == bseq,
                        slot_wf(bseq, h),
                        bs@ == bseq,
                        0 <= i <= bseq.len(),
                        forall|j: int| 0 <= j < i ==> bseq[j].edge != *e,
                    decreases bseq.len() - i,
                {
                    if bs[i].edge == *e {
                        proof {
                            assert(has_edge(bseq, *e));
                            let k = bucket_index(bseq, *e);
                            if k != i {
                                assert(bseq[k].edge == bseq[i as int].edge);
                                assert(slot_wf(bseq, h));
                                assert(false);
                            }
                        }
                        return Some(&bs[i].tris);
                    }
                    i += 1;
                }
                proof {
                    assert(!has_edge(bseq, *e));
                }
                None
            },
        }
    }

    /// Appends `info` to the triangle list of `e`, creating the list when
    /// `e` was not yet present.
    pub fn insert(&mut self, e: Edge, info: TriangleInfo)
        requires
            old(self).wf(),
        ensures
            final(self).wf(),
            final(self)@ == old(self)@.insert(e, entry_or_empty(old(self)@, e).push(info)),
    {
        let h = edge_hash(&e);
        let slot = self.slots.remove(&h);
        match slot {
            None => {
                let mut tris: Vec<TriangleInfo> = Vec::new();
                tris.push(info);
                let mut bs: Vec<EdgeBucket> = Vec::new();
                bs.push(EdgeBucket { edge: e, tris });
                self.slots.insert(h, bs);
                proof {
                    assert(self.slots@ =~= old(self).slots@.insert(h, self.slots@[h]));
                    assert(self.slots@[h]@[0].tris@ =~= Seq::empty().push(info));
                    lemma_insert_fresh_slot(*old(self), *self, h, e, info);
                }
            },
            Some(mut bs) => {
                let ghost bseq = bs@;
                proof {
                    assert(old(self).slots@.contains_key(h));
                    assert(old(self).slots@[h]@ == bseq);
                    assert(slot_wf(bseq, h));
                }
                let n = bs.len();
                let mut i: usize = 0;
                let mut found: bool = false;
                while i < n && !found
                    invariant
                        bs@ == bseq,
                        n == bseq.len(),
                        0 <= i <= n,
                        !found ==> forall|j: int| 0 <= j < i ==> bseq[j].edge != e,
                        found ==> i < n && bseq[i as int].edge == e,
                    decreases n - i + (if found { 0int } else { 1int }),
                {
                    if bs[i].edge == e {
                        found = true;
                    } else {
                        i += 1;
                    }
                }
                if found {
                    let mut b = bs.remove(i);
                    b.tris.push(info);
                    bs.insert(i, b);
                    self.slots.insert(h, bs);
                    proof {
                        assert(self.slots@ =~= old(self).slots@.insert(h, self.slots@[h]));
                        assert(self.slots@[h]@ =~= bseq.update(i as int, self.slots@[h]@[i as int]));
                        assert(self.slots@[h]@[i as int].tris@ == bseq[i as int].tris@.push(info));
                        lemma_insert_existing_edge(*old(self), *self, h, e, info, i as int);
                    }
                } else {
                    let mut tris: Vec<TriangleInfo> = Vec::new();
                    tris.push(info);
                    bs.push(EdgeBucket { edge: e, tris });
                    self.slots.insert(h, bs);
                    proof {
                        assert(self.slots@ =~= old(self).slots@.insert(h, self.slots@[h]));
                        assert(self.slots@[h]@ =~= bseq.push(self.slots@[h]@[bseq.len() as int]));
                        assert(self.slots@[h]@[bseq.len() as int].tris@ =~= Seq::empty().push(info));
                        assert(!has_edge(bseq, e));
                        lemma_insert_new_edge(*old(self), *self, h, e, info);
                    }
                }
            },
        }
    }
}

/// A fresh slot was created for `e`, holding only `e`'s one-triangle bucket.
proof fn lemma_insert_fresh_slot(
    pre: EdgeAdjacencyIndex,
    post: EdgeAdjacencyIndex,
    h: u64,
    e: Edge,
    info: TriangleInfo,
)
    requires
        pre.wf(),
        spec_edge_hash(e) == h,
        !pre.slots@.contains_key(h),
        post.slots@ == pre.slots@.insert(h, post.slots@[h]),
        post.slots@.contains_key(h),
        post.slots@[h]@.len() == 1,
        post.slots@[h]@[0].edge == e,
        post.slots@[h]@[0].tris@ == Seq::<TriangleInfo>::empty().push(info),
    ensures
        post.wf(),
        post@ == pre@.insert(e, entry_or_empty(pre@, e).push(info)),
{
    let nbs = post.slots@[h]@;
    assert(slot_wf(nbs, h));
    assert(post.wf());
    assert(has_edge(nbs, e));
    assert(bucket_index(nbs, e) == 0);
    assert(!pre@.contains_key(e));
    assert(nbs[bucket_index(nbs, e)].tris@ == entry_or_empty(pre@, e).push(info));
    assert forall|e2: Edge| e2 != e && spec_edge_hash(e2) == h implies !has_edge(nbs, e2) by {
        if has_edge(nbs, e2) {
            assert(nbs[bucket_index(nbs, e2)].edge == e2);
        }
    }
    lemma_view_after_slot_change(pre, post, h, e, info);
}

/// Edge `e` already had a bucket at position `i`; only its triangle list
/// grew by `info`.
proof fn lemma_insert_existing_edge(
    pre: EdgeAdjacencyIndex,
    post: EdgeAdjacencyIndex,
    h: u64,
    e: Edge,
    info: TriangleInfo,
    i: int,
)
    requires
        pre.wf(),
        spec_edge_hash(e) == h,
        pre.slots@.contains_key(h),
        0 <= i < pre.slots@[h]@.len(),
        pre.slots@[h]@[i].edge == e,
        post.slots@ == pre.slots@.insert(h, post.slots@[h]),
        post.slots@.contains_key(h),
        post.slots@[h]@ == pre.slots@[h]@.update(i, post.slots@[h]@[i]),
        post.slots@[h]@[i].edge == e,
        post.slots@[h]@[i].tris@ == pre.slots@[h]@[i].tris@.push(info),
    ensures
        post.wf(),
        post@ == pre@.insert(e, entry_or_empty(pre@, e).push(info)),
{
    let bseq = pre.slots@[h]@;
    let nbs = post.slots@[h]@;
    assert(slot_wf(bseq, h));
    assert(nbs.len() == bseq.len());
    assert(forall|k: int| 0 <= k < nbs.len() ==> #[trigger] nbs[k].edge == bseq[k].edge);
    assert(slot_wf(nbs, h));
    assert(post.wf());
    assert(has_edge(bseq, e));
    assert(pre@.contains_key(e));
    lemma_unique_bucket(bseq, h, e, i);
    assert(entry_or_empty(pre@, e) == bseq[i].tris@);
    assert(has_edge(nbs, e));
    lemma_unique_bucket(nbs, h, e, i);
    assert(nbs[bucket_index(nbs, e)].tris@ == entry_or_empty(pre@, e).push(info));
    assert forall|e2: Edge| e2 != e && spec_edge_hash(e2) == h implies has_edge(nbs, e2)
        == has_edge(bseq, e2) && (has_edge(nbs, e2) ==> nbs[bucket_index(nbs, e2)].tris@
        == bseq[bucket_index(bseq, e2)].tris@) by {
        if has_edge(bseq, e2) {
            let k = bucket_index(bseq, e2);
            assert(bseq[k].edge == e2);
            assert(nbs[k].edge == e2);
            assert(has_edge(nbs, e2));
        }
        if has_edge(nbs, e2) {
            let k = bucket_index(nbs, e2);
            assert(nbs[k].edge == e2);
            assert(bseq[k].edge == e2);
            assert(has_edge(bseq, e2));
            lemma_unique_bucket(bseq, h, e2, k);
            lemma_unique_bucket(nbs, h, e2, k);
            assert(k != i);
            assert(nbs[k].tris@ == bseq[k].tris@);
        }
    }
    lemma_view_after_slot_change(pre, post, h, e, info);
}

/// Edge `e` was new to its slot; its one-triangle bucket was appended to
/// the slot's list.
proof fn lemma_insert_new_edge(
    pre: EdgeAdjacencyIndex,
    post: EdgeAdjacencyIndex,
    h: u64,
    e: Edge,
    info: TriangleInfo,
)
    requires
        pre.wf(),
        spec_edge_hash(e) == h,
        pre.slots@.contains_key(h),
        !has_edge(pre.slots@[h]@, e),
        post.slots@ == pre.slots@.insert(h, post.slots@[h]),
        post.slots@.contains_key(h),
        post.slots@[h]@ == pre.slots@[h]@.push(post.slots@[h]@[pre.slots@[h]@.len() as int]),
        post.slots@[h]@[pre.slots@[h]@.len() as int].edge == e,
        post.slots@[h]@[pre.slots@[h]@.len() as int].tris@ == Seq::<TriangleInfo>::empty().push(
            info,
        ),
    ensures
        post.wf(),
        post@ == pre@.insert(e, entry_or_empty(pre@, e).push(info)),
{
    let bseq = pre.slots@[h]@;
    let nbs = post.slots@[h]@;
    let m = bseq.len() as int;
    assert(slot_wf(bseq, h));
    assert(nbs.len() == m + 1);
    assert(forall|k: int| 0 <= k < m ==> nbs[k] == bseq[k]);
    assert forall|k: int, j: int| 0 <= k < j < nbs.len() implies nbs[k].edge != nbs[j].edge by {
        if j == m {
            if nbs[k].edge == e {
                assert(bseq[k].edge == e);
                assert(has_edge(bseq, e));
            }
        }
    }
    assert(slot_wf(nbs, h));
    assert(post.wf());
    assert(!pre@.contains_key(e));
    assert(has_edge(nbs, e));
    lemma_unique_bucket(nbs, h, e, m);
    assert(nbs[bucket_index(nbs, e)].tris@ == entry_or_empty(pre@, e).push(info));
    assert forall|e2: Edge| e2 != e && spec_edge_hash(e2) == h implies has_edge(nbs, e2)
        == has_edge(bseq, e2) && (has_edge(nbs, e2) ==> nbs[bucket_index(nbs, e2)].tris@
        == bseq[bucket_index(bseq, e2)].tris@) by {
        if has_edge(bseq, e2) {
            let k = bucket_index(bseq, e2);
            assert(bseq[k].edge == e2);
            assert(nbs[k].edge == e2);
            assert(has_edge(nbs, e2));
        }
        if has_edge(nbs, e2) {
            let k = bucket_index(nbs, e2);
            assert(nbs[k].edge == e2);
            assert(k != m);
            assert(bseq[k].edge == e2);
            assert(has_edge(bseq, e2));
            lemma_unique_bucket(bseq, h, e2, k);
            lemma_unique_bucket(nbs, h, e2, k);
            assert(nbs[k].tris@ == bseq[k].tris@);
        }
    }
    lemma_view_after_slot_change(pre, post, h, e, info);
}

/// In a well-formed slot list, a position whose bucket carries `e` is the
/// position `bucket_index` picks.
proof fn lemma_unique_bucket(bs: Seq<EdgeBucket>, h: u64, e: Edge, i: int)
    requires
        slot_wf(bs, h),
        0 <= i < bs.len(),
        bs[i].edge == e,
    ensures
        has_edge(bs, e),
        bucket_index(bs, e) == i,
{
    assert(has_edge(bs, e));
    let k = bucket_index(bs, e);
    assert(bs[k].edge == e);
    if k != i {
        assert(false);
    }
}

/// After changing only slot `h` so that edge `e`'s bucket gained `info` at
/// the end of its list (or appeared with just `info`), while every other
/// edge kept its presence and its triangle list, the abstract map is the
/// old map with `e`'s entry extended.
proof fn lemma_view_after_slot_change(
    pre: EdgeAdjacencyIndex,
    post: EdgeAdjacencyIndex,
    h: u64,
    e: Edge,
    info: TriangleInfo,
)
    requires
        pre.wf(),
        spec_edge_hash(e) == h,
        post.slots@ == pre.slots@.insert(h, post.slots@[h]),
        post.slots@.contains_key(h),
        has_edge(post.slots@[h]@, e),
        post.slots@[h]@[bucket_index(post.slots@[h]@, e)].tris@ == entry_or_empty(pre@, e).push(
            info,
        ),
        forall|e2: Edge|
            e2 != e && spec_edge_hash(e2) == h ==> #[trigger] has_edge(post.slots@[h]@, e2) == (
            pre.slots@.contains_key(h) && has_edge(pre.slots@[h]@, e2)),
        forall|e2: Edge|
            e2 != e && spec_edge_hash(e2) == h && #[trigger] has_edge(post.slots@[h]@, e2)
                ==> post.slots@[h]@[bucket_index(post.slots@[h]@, e2)].tris@
                == pre.slots@[h]@[bucket_index(pre.slots@[h]@, e2)].tris@,
    ensures
        post@ == pre@.insert(e, entry_or_empty(pre@, e).push(info)),
{
    let target = pre@.insert(e, entry_or_empty(pre@, e).push(info));
    assert forall|e2: Edge| post@.contains_key(e2) == target.contains_key(e2) by {
        if e2 != e && spec_edge_hash(e2) != h {
            assert(post.slots@.contains_key(spec_edge_hash(e2)) == pre.slots@.contains_key(
                spec_edge_hash(e2),
            ));
            if post.slots@.contains_key(spec_edge_hash(e2)) {
                assert(post.slots@[spec_edge_hash(e2)] == pre.slots@[spec_edge_hash(e2)]);
            }
        }
    }
    assert forall|e2: Edge| #[trigger] post@.contains_key(e2) implies post@[e2] == target[e2] by {
        if e2 != e && spec_edge_hash(e2) != h {
            assert(post.slots@[spec_edge_hash(e2)] == pre.slots@[spec_edge_hash(e2)]);
        }
    }
    assert(post@ =~= target);
}

} // verus!
