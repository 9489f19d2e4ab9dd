use vstd::prelude::*;
use crate::types::{quality, MetricResult};

verus! {

/// Most version slots a node carries.
pub const VERSION_SLOTS: usize = 8;

/// Location of a node's property record in the property file.
#[derive(Clone, Copy, Debug, PartialEq, Eq, Structural)]
pub struct PropLocation {
    pub offset: u64,
    pub len: u32,
}

/// One filled neighbor slot: the neighbor's id, its handle in the cache and
/// its distance to the owning node.
#[derive(Clone, Copy, Debug, PartialEq, Eq, Structural)]
pub struct Neighbor {
    pub id: u32,
    pub node: usize,
    pub dist: MetricResult,
}

/// How good a slot is; an empty slot is worse than any filled one.
pub open spec fn slot_quality(s: Option<Neighbor>) -> int {
    match s {
        Some(n) => quality(n.dist),
        None => -0x1_0000_0000,
    }
}

/// The worst slot quality of a sequence of slots (an empty sequence has none
/// worse than a filled slot can be).
pub open spec fn min_quality(s: Seq<Option<Neighbor>>) -> int
    decreases s.len(),
{
    if s.len() == 0 {
        0x1_0000_0000
    } else {
        let rest = min_quality(s.drop_last());
        let q = slot_quality(s.last());
        if q < rest {
            q
        } else {
            rest
        }
    }
}

/// `min_quality` is at most every slot's quality, and is reached by one
/// slot when there is any.
pub proof fn lemma_min_quality_bounds(s: Seq<Option<Neighbor>>)
    ensures
        forall|j: int| 0 <= j < s.len() ==> min_quality(s) <= #[trigger] slot_quality(s[j]),
        s.len() > 0 ==> exists|j: int| 0 <= j < s.len() && min_quality(s) == slot_quality(s[j]),
    decreases s.len(),
{
    if s.len() > 0 {
        lemma_min_quality_bounds(s.drop_last());
        let d = s.drop_last();
        assert forall|j: int| 0 <= j < s.len() implies min_quality(s) <= #[trigger] slot_quality(
            s[j],
        ) by {
            if j < s.len() - 1 {
                assert(s[j] == d[j]);
            }
        }
        assert(s[s.len() - 1] == s.last());
        if let Some(x) = s.last() {
            assert(quality(x.dist) <= 0x8000_0000);
        }
        if d.len() > 0 {
            let j = choose|j: int| 0 <= j < d.len() && min_quality(d) == slot_quality(d[j]);
            assert(s[j] == d[j]);
            if min_quality(s) == slot_quality(s.last()) {
                assert(min_quality(s) == slot_quality(s[s.len() - 1]));
            } else {
                assert(min_quality(s) == slot_quality(s[j]));
            }
        } else {
            assert(min_quality(d) == 0x1_0000_0000);
            assert(min_quality(s) == slot_quality(s[s.len() - 1]));
        }
    }
}

/// A value that is at most every element's quality and equal to one of
/// them is the minimum.
pub proof fn lemma_min_quality_is(s: Seq<Option<Neighbor>>, m: int, k: int)
    requires
        0 <= k < s.len(),
        slot_quality(s[k]) == m,
        forall|j: int| 0 <= j < s.len() ==> m <= #[trigger] slot_quality(s[j]),
    ensures
        min_quality(s) == m,
{
    lemma_min_quality_bounds(s);
}

/// Replacing a worst slot by a better one never makes the worst slot worse.
pub proof fn lemma_replace_worst_improves(s: Seq<Option<Neighbor>>, k: int, n: Neighbor)
    requires
        0 <= k < s.len(),
        forall|j: int| 0 <= j < s.len() ==> slot_quality(s[k]) <= #[trigger] slot_quality(s[j]),
        quality(n.dist) >= slot_quality(s[k]),
    ensures
        min_quality(s.update(k, Some(n))) >= min_quality(s),
{
    let t = s.update(k, Some(n));
    lemma_min_quality_is(s, slot_quality(s[k]), k);
    lemma_min_quality_bounds(t);
    if t.len() > 0 {
        let j = choose|j: int| 0 <= j < t.len() && min_quality(t) == slot_quality(t[j]);
        if j != k {
            assert(t[j] == s[j]);
        }
    }
}

/// `k` is the first empty slot of `s`.
pub open spec fn first_empty_at(s: Seq<Option<Neighbor>>, k: int) -> bool {
    &&& 0 <= k < s.len()
    &&& s[k] is None
    &&& forall|j: int| 0 <= j < k ==> #[trigger] s[j] is Some
}

/// `k` is the first of the worst slots of `s`.
pub open spec fn first_worst_at(s: Seq<Option<Neighbor>>, k: int) -> bool {
    &&& 0 <= k < s.len()
    &&& forall|j: int| 0 <= j < s.len() ==> slot_quality(s[k]) <= #[trigger] slot_quality(s[j])
    &&& forall|j: int| 0 <= j < k ==> slot_quality(s[k]) < #[trigger] slot_quality(s[j])
}

/// Every slot of `s` is filled.
pub open spec fn all_filled(s: Seq<Option<Neighbor>>) -> bool {
    forall|j: int| 0 <= j < s.len() ==> #[trigger] s[j] is Some
}

/// `t` is what offering `n` to the slots `s` leaves: the first empty slot
/// takes it; else the first worst slot takes it if `n` is strictly better;
/// else nothing changes.
pub open spec fn neighbor_added(s: Seq<Option<Neighbor>>, n: Neighbor, t: Seq<Option<Neighbor>>) -> bool {
    if exists|k: int| first_empty_at(s, k) {
        exists|k: int| first_empty_at(s, k) && t == s.update(k, Some(n))
    } else if s.len() == 0 {
        t == s
    } else {
        exists|k: int|
            first_worst_at(s, k) && t == (if quality(n.dist) > slot_quality(s[k]) {
                s.update(k, Some(n))
            } else {
                s
            })
    }
}

/// A node of the layered proximity graph at one version.
///
/// Links to other nodes are handles into the cache that owns every item.
#[derive(Debug)]
pub struct ProbNode {
    pub hnsw_level: u8,
    pub prop_value: PropLocation,
    pub prop_metadata: Option<PropLocation>,
    pub parent: Option<usize>,
    pub child: Option<usize>,
    pub root_version: Option<usize>,
    pub neighbors: Vec<Option<Neighbor>>,
    pub versions: Vec<usize>,
}

impl ProbNode {
    /// A node with `neighbors_count` empty neighbor slots and no versions.
    pub fn new(
        hnsw_level: u8,
        prop_value: PropLocation,
        prop_metadata: Option<PropLocation>,
        parent: Option<usize>,
        child: Option<usize>,
        neighbors_count: usize,
    ) -> (r: Self)
        ensures
            r.hnsw_level == hnsw_level,
            r.prop_value == prop_value,
            r.prop_metadata == prop_metadata,
            r.parent == parent,
            r.child == child,
            r.root_version is None,
            r.neighbors@ == Seq::new(neighbors_count as nat, |i: int| None::<Neighbor>),
            r.versions@.len() == 0,
    {
        let mut neighbors: Vec<Option<Neighbor>> = Vec::new();
        while neighbors.len() < neighbors_count
            invariant
                neighbors@.len() <= neighbors_count,
                forall|j: int| 0 <= j < neighbors@.len() ==> neighbors@[j] is None,
            decreases neighbors_count - neighbors@.len(),
        {
            neighbors.push(None);
        }
        assert(neighbors@ =~= Seq::new(neighbors_count as nat, |i: int| None::<Neighbor>));
        ProbNode {
            hnsw_level,
            prop_value,
            prop_metadata,
            parent,
            child,
            root_version: None,
            neighbors,
            versions: Vec::new(),
        }
    }

    pub fn get_parent(&self) -> (r: Option<usize>)
        ensures
            r == self.parent,
    {
        self.parent
    }

    pub fn get_child(&self) -> (r: Option<usize>)
        ensures
            r == self.child,
    {
        self.child
    }

    /// Sets the parent link once; a link already set stays as it is.
    pub fn set_parent(&mut self, parent: usize) -> (r: bool)
        ensures
            r == old(self).parent is None,
            final(self).parent == (if r {
                Some(parent)
            } else {
                old(self).parent
            }),
            final(self).child == old(self).child,
            final(self).neighbors == old(self).neighbors,
            final(self).versions == old(self).versions,
            final(self).root_version == old(self).root_version,
            final(self).hnsw_level == old(self).hnsw_level,
            final(self).prop_value == old(self).prop_value,
            final(self).prop_metadata == old(self).prop_metadata,
    {
        if self.parent.is_none() {
            self.parent = Some(parent);
            true
        } else {
            false
        }
    }

    /// Sets the child link once; a link already set stays as it is.
    pub fn set_child(&mut self, child: usize) -> (r: bool)
        ensures
            r == old(self).child is None,
            final(self).child == (if r {
                Some(child)
            } else {
                old(self).child
            }),
            final(self).parent == old(self).parent,
            final(self).neighbors == old(self).neighbors,
            final(self).versions == old(self).versions,
            final(self).root_version == old(self).root_version,
            final(self).hnsw_level == old(self).hnsw_level,
            final(self).prop_value == old(self).prop_value,
            final(self).prop_metadata == old(self).prop_metadata,
    {
        if self.child.is_none() {
            self.child = Some(child);
            true
        } else {
            false
        }
    }

    pub fn get_neighbors_raw(&self) -> (r: &Vec<Option<Neighbor>>)
        ensures
            r@ == self.neighbors@,
    {
        &self.neighbors
    }

    /// Offers a neighbor to the node.
    ///
    /// The first empty slot takes it; when no slot is empty it replaces the
    /// first of the worst slots if it is strictly better than that slot, and
    /// is dropped otherwise. The worst slot never gets worse.
    pub fn add_neighbor(&mut self, id: u32, node: usize, dist: MetricResult)
        ensures
            neighbor_added(old(self).neighbors@, Neighbor { id, node, dist }, final(self).neighbors@),
            min_quality(final(self).neighbors@) >= min_quality(old(self).neighbors@),
            final(self).neighbors@.len() == old(self).neighbors@.len(),
            final(self).parent == old(self).parent,
            final(self).child == old(self).child,
            final(self).versions == old(self).versions,
            final(self).root_version == old(self).root_version,
            final(self).hnsw_level == old(self).hnsw_level,
            final(self).prop_value == old(self).prop_value,
            final(self).prop_metadata == old(self).prop_metadata,
    {
        let ghost s = self.neighbors@;
        let n = Neighbor { id, node, dist };
        let len = self.neighbors.len();
        if len == 0 {
            return;
        }
        let mut i: usize = 0;
        while i < len
            invariant
                i <= len,
                len == s.len(),
                self.neighbors@ == s,
                *self == *old(self),
                n == (Neighbor { id, node, dist }),
                s == old(self).neighbors@,
                forall|j: int| 0 <= j < i ==> #[trigger] s[j] is Some,
            decreases len - i,
        {
            if self.neighbors[i].is_none() {
                self.neighbors.set(i, Some(n));
                proof {
                    assert forall|j: int| 0 <= j < s.len() implies slot_quality(s[i as int])
                        <= #[trigger] slot_quality(s[j]) by {
                        if let Some(x) = s[j] {
                            assert(quality(x.dist) >= -0x8000_0000);
                        }
                    }
                    assert(first_empty_at(s, i as int));
                    assert(first_empty_at(s, i as int) && self.neighbors@ == s.update(
                        i as int,
                        Some(n),
                    ));
                    lemma_replace_worst_improves(s, i as int, n);
                    assert(neighbor_added(s, n, self.neighbors@));
                }
                return;
            }
            i = i + 1;
        }
        let mut worst: usize = 0;
        let mut worst_q: i64 = match self.neighbors[0] {
            Some(x) => x.dist.quality(),
            None => 0,
        };
        let mut i: usize = 1;
        while i < len
            invariant
                1 <= i <= len,
                worst < i,
                len == s.len(),
                self.neighbors@ == s,
                *self == *old(self),
                n == (Neighbor { id, node, dist }),
                s == old(self).neighbors@,
                forall|j: int| 0 <= j < len ==> #[trigger] s[j] is Some,
                worst_q as int == slot_quality(s[worst as int]),
                forall|j: int|
                    0 <= j < i ==> slot_quality(s[worst as int]) <= #[trigger] slot_quality(s[j]),
                forall|j: int|
                    0 <= j < worst ==> slot_quality(s[worst as int]) < #[trigger] slot_quality(s[j]),
            decreases len - i,
        {
            let q = match self.neighbors[i] {
                Some(x) => x.dist.quality(),
                None => 0,
            };
            if q < worst_q {
                worst = i;
                worst_q = q;
            }
            i = i + 1;
        }
        assert(!exists|k: int| first_empty_at(s, k));
        assert(first_worst_at(s, worst as int));
        if dist.quality() > worst_q {
            self.neighbors.set(worst, Some(n));
            proof {
                lemma_replace_worst_improves(s, worst as int, n);
            }
        }
    }
}

} // verus!
