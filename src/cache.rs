use vstd::prelude::*;
use crate::lazy_item::{largest_power_of_4_below, lemma_pow4_values, pow4, pow4_table, ProbLazyItem, ProbLazyItemState};
use crate::codec::{
    decode_spec, deserialize_record, encodable, encode_spec, lemma_record_round_trip, sentinel,
    NeighborRecord, NodeRecord, NodeRecordView,
};
use crate::lazy_item::ReadyState;
use crate::node::{Neighbor, ProbNode, VERSION_SLOTS};
use crate::types::{CoreError, FileIndex};

verus! {

/// The registry that owns every lazy item of an index; nodes refer to one
/// another by their index (handle) in it.
pub struct HNSWIndexCache {
    pub items: Vec<ProbLazyItem<ProbNode>>,
}

impl HNSWIndexCache {
    pub open spec fn len(&self) -> int {
        self.items@.len() as int
    }

    /// Version number of the item at handle `h`, loaded or not.
    pub open spec fn vn(&self, h: int) -> int {
        self.items@[h].spec_version_number() as int
    }

    /// Handle `r` holds the loaded record that locator `loc` addresses.
    pub open spec fn ready_with(&self, loc: FileIndex, r: int) -> bool {
        &&& 0 <= r < self.len()
        &&& self.items@[r].spec_state() is Ready
        &&& self.items@[r].spec_file_index() == loc
    }

    /// Handle `h` resolves to the loaded item `r` (itself when it is ready).
    pub open spec fn resolves(&self, h: int, r: int) -> bool {
        &&& 0 <= h < self.len()
        &&& self.ready_with(self.items@[h].spec_file_index(), r)
    }

    /// The node held by a ready handle.
    pub open spec fn data(&self, r: int) -> ProbNode {
        self.items@[r].spec_state()->Ready_0.data
    }

    /// The version chain of a loaded node is well spaced: slot `i` holds a
    /// handle whose version number is `4^i` above the node's own.
    pub open spec fn chain_ok(&self, r: int) -> bool {
        let d = self.data(r);
        &&& d.versions@.len() <= VERSION_SLOTS
        &&& forall|i: int|
            0 <= i < d.versions@.len() ==> 0 <= #[trigger] d.versions@[i] < self.len()
                && self.vn(d.versions@[i] as int) == self.vn(r) + pow4(i as nat)
        &&& match d.root_version {
            Some(x) => x < self.len(),
            None => true,
        }
    }

    /// No locator is loaded twice, and every loaded node has a well-spaced
    /// version chain.
    pub open spec fn wf(&self) -> bool {
        &&& forall|a: int, b: int|
            #![trigger self.items@[a].spec_file_index(), self.items@[b].spec_file_index()]
            self.ready_with(self.items@[a].spec_file_index(), a) && self.ready_with(
                self.items@[a].spec_file_index(),
                b,
            ) ==> a == b
        &&& forall|r: int|
            0 <= r < self.len() && (#[trigger] self.items@[r]).spec_state() is Ready
                ==> self.chain_ok(r)
    }

    /// `b` is the last version slot of the node that `a` stands for.
    pub open spec fn last_step(&self, a: int, b: int) -> bool {
        exists|r: int|
            self.resolves(a, r) && self.data(r).versions@.len() > 0 && b
                == self.data(r).versions@.last() as int
    }

    /// `p` follows last version slots from its first handle to its last.
    pub open spec fn last_path(&self, p: Seq<int>) -> bool {
        &&& p.len() >= 1
        &&& forall|i: int| 0 <= i < p.len() - 1 ==> #[trigger] self.last_step(p[i], p[i + 1])
    }

    /// `e` is the end of a chain of last slots from `h`.
    pub open spec fn last_reach(&self, h: int, e: int) -> bool {
        exists|p: Seq<int>| self.last_path(p) && p[0] == h && p.last() == e
    }

    /// `b` is slot `i` of the node that `a` stands for.
    pub open spec fn slot_step(&self, a: int, b: int) -> bool {
        exists|r: int, i: int|
            self.resolves(a, r) && 0 <= i < self.data(r).versions@.len() && b
                == self.data(r).versions@[i] as int
    }

    /// `p` follows version slots from its first handle to its last.
    pub open spec fn slot_path(&self, p: Seq<int>) -> bool {
        &&& p.len() >= 1
        &&& forall|i: int| 0 <= i < p.len() - 1 ==> #[trigger] self.slot_step(p[i], p[i + 1])
    }

    /// `e` is reached from `h` through version slots.
    pub open spec fn slot_reach(&self, h: int, e: int) -> bool {
        exists|p: Seq<int>| self.slot_path(p) && p[0] == h && p.last() == e
    }

    /// The number of items in the cache.
    pub fn item_count(&self) -> (r: usize)
        ensures
            r == self.len(),
    {
        self.items.len()
    }

    /// The item at handle `h`.
    pub fn get_item(&self, h: usize) -> (r: &ProbLazyItem<ProbNode>)
        requires
            h < self.len(),
        ensures
            *r == self.items@[h as int],
    {
        &self.items[h]
    }

    /// Registers an item and returns its handle.
    ///
    /// A ready item is refused when a ready item with its locator is
    /// already registered, or when its version chain or root link does not
    /// fit the cache (a slot out of range, or not `4^i` versions ahead).
    pub fn add_item(&mut self, item: ProbLazyItem<ProbNode>) -> (r: Result<usize, CoreError>)
        requires
            old(self).wf(),
        ensures
            final(self).wf(),
            match r {
                Ok(h) => h == old(self).len() && final(self).items@ == old(self).items@.push(item),
                Err(e) => e == CoreError::InvariantViolation && final(self).items@ == old(
                    self,
                ).items@,
            },
            r is Err <==> (item.spec_state() is Ready && ((exists|x: int|
                old(self).ready_with(item.spec_file_index(), x)) || !old(self).item_fits(item))),
    {
        let n = self.items.len();
        if let ProbLazyItemState::Ready(s) = &item.state {
            if self.get_object(item.get_file_index()).is_some() {
                return Err(CoreError::InvariantViolation);
            }
            let own = s.version_number;
            let vs = &s.data.versions;
            if vs.len() > VERSION_SLOTS {
                return Err(CoreError::InvariantViolation);
            }
            proof {
                lemma_pow4_values();
            }
            let mut i: usize = 0;
            while i < vs.len()
                invariant
                    i <= vs@.len() <= VERSION_SLOTS,
                    n == self.len(),
                    *self == *old(self),
                    self.wf(),
                    own == item.spec_version_number(),
                    item.spec_state() is Ready,
                    vs@ == item.spec_state()->Ready_0.data.versions@,
                    forall|j: int|
                        0 <= j < i ==> 0 <= #[trigger] vs@[j] < n && self.vn(vs@[j] as int)
                            == own + pow4(j as nat),
                    pow4_table(),
                decreases vs@.len() - i,
            {
                let v = vs[i];
                if v >= n {
                    assert(!(0 <= vs@[i as int] < self.len()));
                    return Err(CoreError::InvariantViolation);
                }
                let got = self.items[v].get_current_version_number() as u32;
                if got != own as u32 + pow4_exec(i) as u32 {
                    assert(self.vn(vs@[i as int] as int) != own + pow4(i as nat));
                    return Err(CoreError::InvariantViolation);
                }
                i = i + 1;
            }
            if let Some(x) = s.data.root_version {
                if x >= n {
                    return Err(CoreError::InvariantViolation);
                }
            }
        }
        self.items.push(item);
        proof {
            assert(self.items@ == old(self).items@.push(item));
            assert forall|r: int|
                0 <= r < self.len() && (#[trigger] self.items@[r]).spec_state() is Ready implies self.chain_ok(r) by {
                if r < n {
                    assert(old(self).items@[r] == self.items@[r]);
                    assert(old(self).chain_ok(r));
                    let d = self.data(r);
                    assert forall|i: int| 0 <= i < d.versions@.len() implies 0 <= #[trigger] d.versions@[i] < self.len()
                        && self.vn(d.versions@[i] as int) == self.vn(r) + pow4(i as nat) by {
                        assert(old(self).items@[d.versions@[i] as int] == self.items@[d.versions@[i] as int]);
                    }
                } else {
                    let d = self.data(r);
                    assert(old(self).item_fits(item));
                    assert forall|i: int| 0 <= i < d.versions@.len() implies 0 <= #[trigger] d.versions@[i] < self.len()
                        && self.vn(d.versions@[i] as int) == self.vn(r) + pow4(i as nat) by {
                        assert(old(self).items@[d.versions@[i] as int] == self.items@[d.versions@[i] as int]);
                    }
                }
            }
            assert forall|a: int, b: int|
                #![trigger self.items@[a].spec_file_index(), self.items@[b].spec_file_index()]
                self.ready_with(self.items@[a].spec_file_index(), a) && self.ready_with(
                    self.items@[a].spec_file_index(),
                    b,
                ) implies a == b by {
                if a < n && b < n {
                    assert(old(self).items@[a] == self.items@[a]);
                    assert(old(self).items@[b] == self.items@[b]);
                } else if a < n {
                    assert(old(self).items@[a] == self.items@[a]);
                    assert(old(self).ready_with(item.spec_file_index(), a));
                } else if b < n {
                    assert(old(self).items@[b] == self.items@[b]);
                    assert(old(self).ready_with(item.spec_file_index(), b));
                }
            }
        }
        Ok(n)
    }

    /// A ready item's version chain and root link point at items already
    /// registered, with slot `i` holding a version `4^i` above the item's.
    pub open spec fn item_fits(&self, item: ProbLazyItem<ProbNode>) -> bool {
        let d = item.spec_state()->Ready_0.data;
        &&& d.versions@.len() <= VERSION_SLOTS
        &&& forall|i: int|
            0 <= i < d.versions@.len() ==> 0 <= #[trigger] d.versions@[i] < self.len()
                && self.vn(d.versions@[i] as int) == item.spec_version_number() + pow4(i as nat)
        &&& match d.root_version {
            Some(x) => x < self.len(),
            None => true,
        }
    }

    /// The node `c`, reached from `this`, is loaded and holds exactly the
    /// slots of the layout that inserting versions one at a time builds
    /// for a chain whose newest version is `l` above `this`.
    pub open spec fn canonical_at(&self, this: int, c: int, l: int) -> bool {
        exists|x: int|
            self.resolves(c, x) && forall|i: int|
                0 <= i < 8 ==> (i < self.data(x).versions@.len() <==> #[trigger] has_slot(
                    self.vn(c) - self.vn(this),
                    i,
                    l,
                ))
    }

    /// The version chain from `this` is the one that adding the versions
    /// `vn(this) + 1` up to `vn(this) + l` one at a time builds: every node
    /// of it is loaded, and one node stands for each version number.
    pub open spec fn canonical(&self, this: int, l: int) -> bool {
        &&& 0 <= this < self.len()
        &&& 0 <= l
        &&& self.vn(this) + l < 65536
        &&& forall|c: int| #[trigger] self.slot_reach(this, c) ==> self.canonical_at(this, c, l)
        &&& forall|c1: int, c2: int, x1: int, x2: int|
            #![trigger self.slot_reach(this, c1), self.slot_reach(this, c2), self.resolves(c1, x1), self.resolves(c2, x2)]
            self.slot_reach(this, c1) && self.slot_reach(this, c2) && self.resolves(c1, x1) && self.resolves(c2, x2)
                && self.vn(c1) == self.vn(c2) ==> x1 == x2
    }

    /// Follows last version slots from `this` to the newest version that the
    /// chain reaches, and returns it with its distance in versions.
    pub fn get_latest_version(&self, this: usize) -> (r: Result<(usize, u16), CoreError>)
        requires
            self.wf(),
            this < self.len(),
        ensures
            match r {
                Ok((e, rel)) => {
                    &&& self.last_reach(this as int, e as int)
                    &&& e < self.len()
                    &&& self.vn(e as int) == self.vn(this as int) + rel
                    &&& exists|x: int| self.resolves(e as int, x) && self.data(x).versions@.len() == 0
                },
                Err(err) => exists|x: int|
                    self.last_reach(this as int, x) && 0 <= x < self.len() && err == CoreError::NotLoaded(
                        self.items@[x].spec_file_index(),
                    ) && forall|y: int| !self.resolves(x, y),
            },
            forall|l: int|
                #[trigger] self.canonical(this as int, l) ==> (r matches Ok((_, rel)) && rel == l),
    {
        proof {
            lemma_pow4_values();
        }
        let mut cur: usize = this;
        let mut rel: u16 = 0;
        let ghost mut p: Seq<int> = seq![this as int];
        let ghost mut sp: Seq<int> = seq![this as int];
        proof {
            assert forall|l: int| #[trigger] self.canonical(this as int, l) implies 0 <= l && (0 < l ==> digit_room(
                0,
                l - 0,
            )) by {
                if 0 < l {
                    lemma_digit_room_start(l);
                }
            }
        }
        loop
            invariant
                self.wf(),
                cur < self.len(),
                self.last_path(p),
                p[0] == this,
                p.last() == cur,
                self.slot_path(sp),
                sp[0] == this,
                sp.last() == cur,
                self.vn(cur as int) == self.vn(this as int) + rel,
                pow4_table(),
                forall|l: int|
                    #[trigger] self.canonical(this as int, l) ==> rel <= l && (rel < l ==> digit_room(
                        rel as int,
                        l - rel,
                    )),
            decreases 65535 - self.vn(cur as int),
        {
            assert(self.slot_reach(this as int, cur as int));
            let x = match self.resolve(cur) {
                Ok(x) => x,
                Err(e) => {
                    assert(self.last_reach(this as int, cur as int));
                    assert forall|l: int| !#[trigger] self.canonical(this as int, l) by {
                        if self.canonical(this as int, l) {
                            assert(self.canonical_at(this as int, cur as int, l));
                        }
                    }
                    return Err(e);
                },
            };
            proof {
                assert forall|l: int| #[trigger] self.canonical(this as int, l) implies ({
                    let len = self.data(x as int).versions@.len() as int;
                    &&& rel == l ==> len == 0
                    &&& rel < l ==> len >= 1 && log4_is(l - rel, len - 1)
                }) by {
                    lemma_canonical_slots(self, this as int, cur as int, x as int, l);
                    assert(self.vn(cur as int) - self.vn(this as int) == rel as int);
                    lemma_canonical_last(self.data(x as int).versions@.len() as int, rel as int, l);
                }
            }
            let versions = match &self.items[x].state {
                ProbLazyItemState::Ready(s) => &s.data.versions,
                ProbLazyItemState::Pending(_) => {
                    return Err(CoreError::NotLoaded(self.items[cur].get_file_index()));
                },
            };
            assert(versions@ == self.data(x as int).versions@);
            assert(self.chain_ok(x as int));
            let n = versions.len();
            if n == 0 {
                assert(self.last_reach(this as int, cur as int));
                assert(self.resolves(cur as int, x as int) && self.data(x as int).versions@.len() == 0);
                return Ok((cur, rel));
            }
            let last = versions[n - 1];
            let step = pow4_exec(n - 1);
            assert(self.vn(last as int) == self.vn(x as int) + pow4((n - 1) as nat));
            assert(self.last_step(cur as int, last as int));
            assert(self.slot_step(cur as int, last as int));
            let ghost sq = sp.push(last as int);
            assert forall|i: int| 0 <= i < sq.len() - 1 implies #[trigger] self.slot_step(sq[i], sq[i + 1]) by {
                if i < sp.len() - 1 {
                    assert(sq[i] == sp[i] && sq[i + 1] == sp[i + 1]);
                }
            }
            proof {
                sp = sq;
                assert forall|l: int| #[trigger] self.canonical(this as int, l) implies rel + p4(n - 1) <= l && (rel
                    + p4(n - 1) < l ==> digit_room(rel + p4(n - 1), l - (rel + p4(n - 1)))) by {
                    if rel + p4(n - 1) < l {
                        lemma_digit_room_step(rel as int, l - rel, n - 1);
                    }
                }
            }
            let ghost q = p.push(last as int);
            assert forall|i: int| 0 <= i < q.len() - 1 implies #[trigger] self.last_step(q[i], q[i + 1]) by {
                if i < p.len() - 1 {
                    assert(q[i] == p[i] && q[i + 1] == p[i + 1]);
                }
            }
            proof {
                p = q;
            }
            rel = rel + step;
            cur = last;
        }
    }

    /// The node at `r` is the node at `r` in `before` with `version`
    /// appended to its version chain, and nothing else in the cache changed.
    pub open spec fn version_pushed(&self, before: &HNSWIndexCache, r: int, version: usize) -> bool {
        &&& self.len() == before.len()
        &&& forall|j: int| 0 <= j < self.len() && j != r ==> #[trigger] self.items@[j] == before.items@[j]
        &&& self.items@[r].spec_state() is Ready
        &&& self.items@[r].spec_file_index() == before.items@[r].spec_file_index()
        &&& self.items@[r].is_level_0 == before.items@[r].is_level_0
        &&& self.data(r).versions@ == before.data(r).versions@.push(version)
        &&& self.data(r).neighbors@ == before.data(r).neighbors@
        &&& self.data(r).hnsw_level == before.data(r).hnsw_level
        &&& self.data(r).prop_value == before.data(r).prop_value
        &&& self.data(r).prop_metadata == before.data(r).prop_metadata
        &&& self.data(r).parent == before.data(r).parent
        &&& self.data(r).child == before.data(r).child
        &&& self.data(r).root_version == before.data(r).root_version
    }

    /// Appends `version` to the version chain of the loaded node at `r`.
    fn push_version(&mut self, r: usize, version: usize)
        requires
            old(self).wf(),
            r < old(self).len(),
            version < old(self).len(),
            old(self).items@[r as int].spec_state() is Ready,
            old(self).data(r as int).versions@.len() < VERSION_SLOTS,
            old(self).vn(version as int) == old(self).vn(r as int) + pow4(
                old(self).data(r as int).versions@.len(),
            ),
        ensures
            final(self).wf(),
            final(self).version_pushed(old(self), r as int, version),
    {
        let item = self.items.remove(r);
        let ProbLazyItem { state, is_level_0 } = item;
        let state = match state {
            ProbLazyItemState::Ready(mut s) => {
                s.data.versions.push(version);
                ProbLazyItemState::Ready(s)
            },
            ProbLazyItemState::Pending(f) => ProbLazyItemState::Pending(f),
        };
        self.items.insert(r, ProbLazyItem { state, is_level_0 });
        proof {
            let o = old(self);
            assert forall|j: int| 0 <= j < self.len() && j != r implies #[trigger] self.items@[j] == o.items@[j] by {
            }
            assert forall|j: int| 0 <= j < self.len() implies self.vn(j) == o.vn(j) && (self.items@[j].spec_state() is Ready <==> o.items@[j].spec_state() is Ready) && #[trigger] self.items@[j].spec_file_index() == o.items@[j].spec_file_index() by {
                if j != r {
                    assert(self.items@[j] == o.items@[j]);
                }
            }
            assert forall|q: int|
                0 <= q < self.len() && (#[trigger] self.items@[q]).spec_state() is Ready implies self.chain_ok(q) by {
                assert(self.items@[q].spec_file_index() == o.items@[q].spec_file_index());
                assert(o.chain_ok(q));
                let d = self.data(q);
                assert forall|i: int| 0 <= i < d.versions@.len() implies 0 <= #[trigger] d.versions@[i] < self.len()
                    && self.vn(d.versions@[i] as int) == self.vn(q) + pow4(i as nat) by {
                    assert(self.items@[d.versions@[i] as int].spec_file_index() == o.items@[d.versions@[i] as int].spec_file_index());
                    if q == r && i == d.versions@.len() - 1 {
                    } else {
                        assert(d.versions@[i] == o.data(q).versions@[i]);
                    }
                }
            }
            assert forall|a: int, b: int|
                #![trigger self.items@[a].spec_file_index(), self.items@[b].spec_file_index()]
                self.ready_with(self.items@[a].spec_file_index(), a) && self.ready_with(
                    self.items@[a].spec_file_index(),
                    b,
                ) implies a == b by {
                assert(self.items@[a].spec_file_index() == o.items@[a].spec_file_index());
                assert(self.items@[b].spec_file_index() == o.items@[b].spec_file_index());
            }
        }
    }

    /// The loaded node `x` cannot take a version `diff` above it: the slot
    /// for the largest power of four in `diff` is neither there nor the
    /// next free one at exactly that distance.
    pub open spec fn slot_breach(&self, x: int, diff: int) -> bool {
        exists|i: nat|
            pow4(i) <= diff < pow4(i + 1) && (self.data(x).versions@.len() < i || (self.data(
                x,
            ).versions@.len() == i && pow4(i) != diff))
    }

    /// Attaches `version` to the version chain that `this` starts.
    ///
    /// The new version must be one past the newest version the chain
    /// reaches. The walk goes down from `this`, taking at each node the slot
    /// of the largest power of four that fits the remaining distance, and
    /// appends `version` where that slot is the next free one. Reaching a
    /// node at the target distance gives `Ok(Err(node))`, the version
    /// already there; `Ok(Ok(node))` names the node that took the new slot.
    pub fn add_version(&mut self, this: usize, version: usize) -> (r: Result<Result<usize, usize>, CoreError>)
        requires
            old(self).wf(),
            this < old(self).len(),
            version < old(self).len(),
        ensures
            final(self).wf(),
            match r {
                Ok(Ok(h)) => {
                    &&& exists|c: int|
                        old(self).slot_reach(this as int, c) && old(self).resolves(c, h as int)
                    &&& final(self).version_pushed(old(self), h as int, version)
                    &&& old(self).vn(version as int) == old(self).vn(h as int) + pow4(
                        old(self).data(h as int).versions@.len(),
                    )
                },
                Ok(Err(d)) => {
                    &&& final(self).items@ == old(self).items@
                    &&& old(self).slot_reach(this as int, d as int)
                    &&& old(self).vn(d as int) == old(self).vn(version as int)
                },
                Err(_) => final(self).items@ == old(self).items@,
            },
            r matches Ok(Ok(_)) ==> exists|e: int|
                old(self).last_reach(this as int, e) && old(self).vn(version as int) == old(self).vn(e) + 1,
            r matches Err(CoreError::NotLoaded(l)) ==> exists|c: int|
                (old(self).last_reach(this as int, c) || old(self).slot_reach(this as int, c)) && 0 <= c
                    < old(self).len() && l == old(self).items@[c].spec_file_index() && forall|y: int|
                    !old(self).resolves(c, y),
            r == Err::<Result<usize, usize>, CoreError>(CoreError::InvariantViolation) ==> (exists|
                e: int,
                x: int,
            |
                old(self).last_reach(this as int, e) && old(self).resolves(e, x) && old(self).data(
                    x,
                ).versions@.len() == 0 && old(self).vn(version as int) != old(self).vn(e) + 1) || (exists|
                c: int,
                x: int,
            |
                old(self).slot_reach(this as int, c) && old(self).resolves(c, x) && old(self).slot_breach(
                    x,
                    old(self).vn(version as int) - old(self).vn(c),
                )),
            forall|l: int|
                #[trigger] old(self).canonical(this as int, l) && old(self).vn(version as int) == old(
                    self,
                ).vn(this as int) + l + 1 ==> r matches Ok(Ok(_)),
            forall|l: int|
                #[trigger] old(self).canonical(this as int, l) && old(self).vn(this as int) <= old(self).vn(
                    version as int,
                ) <= old(self).vn(this as int) + l ==> (r matches Ok(Err(d)) && old(self).slot_reach(
                    this as int,
                    d as int,
                ) && old(self).vn(d as int) == old(self).vn(version as int)),
            forall|l: int|
                #[trigger] old(self).canonical(this as int, l) && old(self).vn(version as int) == old(
                    self,
                ).vn(this as int) + l + 1 && (exists|x: int|
                    old(self).resolves(version as int, x) && old(self).data(x).versions@.len() == 0)
                    ==> final(self).canonical(this as int, l + 1),
    {
        let (_, latest) = match self.get_latest_version(this) {
            Ok(pair) => pair,
            Err(e) => return Err(e),
        };
        let own = self.items[this].get_current_version_number();
        let target_vn = self.items[version].get_current_version_number();
        if (target_vn as u32) <= own as u32 + latest as u32 {
            return match self.get_version(this, target_vn) {
                Ok(Some(d)) => Ok(Err(d)),
                Ok(None) => Err(CoreError::InvariantViolation),
                Err(e) => Err(e),
            };
        }
        if target_vn as u32 != own as u32 + latest as u32 + 1 {
            return Err(CoreError::InvariantViolation);
        }
        let target: u16 = latest + 1;
        let mut cur: usize = this;
        let mut self_rel: u16 = 0;
        let ghost mut p: Seq<int> = seq![this as int];
        proof {
            lemma_pow4_values();
            assert forall|l: int| #[trigger] self.canonical(this as int, l) && self.vn(version as int) == self.vn(
                this as int,
            ) + l + 1 implies 0 <= l && digit_room(0, target - 0) by {
                lemma_digit_room_start(target as int);
            }
        }
        assert(forall|l: int| #[trigger] self.canonical(this as int, l) ==> self.vn(version as int) > self.vn(
            this as int,
        ) + l);
        loop
            invariant
                forall|l: int| #[trigger] self.canonical(this as int, l) ==> self.vn(version as int) > self.vn(
                    this as int,
                ) + l,
                forall|l: int|
                    #[trigger] self.canonical(this as int, l) && self.vn(version as int) == self.vn(this as int) + l
                        + 1 ==> self_rel <= l && digit_room(self_rel as int, target - self_rel),
                self.wf(),
                *self == *old(self),
                this < self.len(),
                version < self.len(),
                cur < self.len(),
                self_rel <= target,
                target as int == self.vn(version as int) - self.vn(this as int),
                self.slot_path(p),
                p[0] == this,
                p.last() == cur,
                self.vn(cur as int) == self.vn(this as int) + self_rel,
                exists|e: int| self.last_reach(this as int, e) && self.vn(version as int) == self.vn(e) + 1,
                pow4_table(),
            decreases target - self_rel,
        {
            let diff = target - self_rel;
            if diff == 0 {
                assert(self.slot_reach(this as int, cur as int));
                return Ok(Err(cur));
            }
            let index = largest_power_of_4_below(diff);
            let x = match self.resolve(cur) {
                Ok(x) => x,
                Err(e) => {
                    assert(self.slot_reach(this as int, cur as int));
                    assert forall|l: int| !#[trigger] self.canonical(this as int, l) by {
                        if self.canonical(this as int, l) {
                            assert(self.canonical_at(this as int, cur as int, l));
                        }
                    }
                    return Err(e);
                },
            };
            let versions = match &self.items[x].state {
                ProbLazyItemState::Ready(s) => &s.data.versions,
                ProbLazyItemState::Pending(_) => return Err(CoreError::InvariantViolation),
            };
            assert(versions@ == self.data(x as int).versions@);
            assert(self.chain_ok(x as int));
            let n = versions.len();
            let i = index as usize;
            proof {
                assert forall|l: int| #[trigger] self.canonical(this as int, l) && self.vn(version as int) == self.vn(
                    this as int,
                ) + l + 1 implies (p4(index as int) < diff ==> index < n) && (p4(index as int) == diff ==> n
                    == index) by {
                    lemma_canonical_slots(self, this as int, cur as int, x as int, l);
                    assert(self.vn(cur as int) - self.vn(this as int) == self_rel as int);
                    assert(log4_is(diff as int, index as int));
                    lemma_canonical_descent(n as int, self_rel as int, diff as int, l, index as int);
                }
            }
            if i < n {
                let next = versions[i];
                let step = pow4_exec(i);
                assert(self.slot_step(cur as int, next as int));
                let ghost q = p.push(next as int);
                assert forall|k: int| 0 <= k < q.len() - 1 implies #[trigger] self.slot_step(q[k], q[k + 1]) by {
                    if k < p.len() - 1 {
                        assert(q[k] == p[k] && q[k + 1] == p[k + 1]);
                    }
                }
                proof {
                    p = q;
                    assert forall|l: int| #[trigger] self.canonical(this as int, l) && self.vn(version as int)
                        == self.vn(this as int) + l + 1 implies self_rel + p4(i as int) <= l && digit_room(
                        self_rel + p4(i as int),
                        target - (self_rel + p4(i as int)),
                    ) by {
                        assert(log4_is(diff as int, index as int));
                        lemma_digit_room_step(self_rel as int, diff as int, index as int);
                    }
                }
                self_rel = self_rel + step;
                cur = next;
            } else if i == n && pow4_exec(i) == diff {
                assert(self.slot_reach(this as int, cur as int) && self.resolves(cur as int, x as int));
                let ghost before = *self;
                self.push_version(x, version);
                proof {
                    assert forall|l: int| #[trigger] before.canonical(this as int, l) && before.vn(version as int)
                        == before.vn(this as int) + l + 1 && (exists|y: int|
                        before.resolves(version as int, y) && before.data(y).versions@.len() == 0) implies self.canonical(
                        this as int,
                        l + 1,
                    ) by {
                        let xv = choose|y: int| before.resolves(version as int, y) && before.data(y).versions@.len() == 0;
                        assert(log4_is(diff as int, index as int));
                        lemma_digit_room_low(self_rel as int, diff as int, index as int, index as int);
                        lemma_push_keeps_canonical(
                            &before,
                            self,
                            this as int,
                            l,
                            cur as int,
                            x as int,
                            version,
                            xv,
                            index as int,
                        );
                    }
                }
                return Ok(Ok(x));
            } else {
                assert(self.slot_breach(x as int, self.vn(version as int) - self.vn(cur as int))) by {
                    assert(pow4(index as nat) <= diff < pow4(index as nat + 1));
                }
                assert(self.slot_reach(this as int, cur as int));
                return Err(CoreError::InvariantViolation);
            }
        }
    }

    /// The handle of the version-0 node of `this`'s identity: the node's
    /// root link, or `this` itself when the link is unset.
    pub fn get_root_version(&self, this: usize) -> (r: Result<usize, CoreError>)
        requires
            self.wf(),
            this < self.len(),
        ensures
            match r {
                Ok(h) => exists|x: int|
                    self.resolves(this as int, x) && h == match self.data(x).root_version {
                        Some(root) => root,
                        None => this,
                    },
                Err(e) => e == CoreError::NotLoaded(self.items@[this as int].spec_file_index())
                    && forall|x: int| !self.resolves(this as int, x),
            },
    {
        let x = self.resolve(this)?;
        match &self.items[x].state {
            ProbLazyItemState::Ready(s) => {
                assert(self.resolves(this as int, x as int));
                match s.data.root_version {
                    Some(root) => Ok(root),
                    None => Ok(this),
                }
            },
            ProbLazyItemState::Pending(_) => Err(CoreError::NotLoaded(self.items[this].get_file_index())),
        }
    }

    /// Node `c`, loaded at `x`, lies below `version` and every one of its
    /// version slots lies above it: the chain has no node for `version`.
    pub open spec fn overshoots(&self, c: int, x: int, version: int) -> bool {
        &&& self.resolves(c, x)
        &&& self.vn(c) < version
        &&& forall|k: int|
            0 <= k < self.data(x).versions@.len() ==> self.vn(#[trigger] self.data(x).versions@[k] as int)
                > version
    }

    /// On the lookup walk for `version`, node `c` does not pass it, and
    /// when below it has the digit room of the walk.
    pub open spec fn find_room(&self, this: int, c: int, version: int) -> bool {
        &&& self.vn(c) <= version
        &&& self.vn(c) < version ==> digit_room(self.vn(c) - self.vn(this), version - self.vn(c))
    }

    /// Finds the node with version number `version` along the version chain
    /// of `this`, descending at each node into the last slot whose version
    /// does not pass `version`.
    pub fn get_version(&self, this: usize, version: u16) -> (r: Result<Option<usize>, CoreError>)
        requires
            self.wf(),
            this < self.len(),
        ensures
            match r {
                Ok(Some(h)) => self.slot_reach(this as int, h as int) && self.vn(h as int) == version,
                Ok(None) => version < self.vn(this as int) || exists|c: int, x: int|
                    self.slot_reach(this as int, c) && self.overshoots(c, x, version as int),
                Err(e) => exists|c: int|
                    self.slot_reach(this as int, c) && 0 <= c < self.len() && e == CoreError::NotLoaded(
                        self.items@[c].spec_file_index(),
                    ) && forall|y: int| !self.resolves(c, y),
            },
            (exists|x: int| self.resolves(this as int, x)) ==> (version == self.vn(this as int) <==> r
                == Ok::<Option<usize>, CoreError>(Some(this))),
            (exists|x: int| self.resolves(this as int, x)) && version < self.vn(this as int) ==> r
                == Ok::<Option<usize>, CoreError>(None),
            forall|l: int|
                #[trigger] self.canonical(this as int, l) && self.vn(this as int) <= version <= self.vn(
                    this as int,
                ) + l ==> r matches Ok(Some(_)),
    {
        proof {
            lemma_pow4_values();
            assert forall|l: int| #[trigger] self.canonical(this as int, l) && self.vn(this as int) <= version
                <= self.vn(this as int) + l implies self.find_room(this as int, this as int, version as int) by {
                if self.vn(this as int) < version {
                    lemma_digit_room_start(version - self.vn(this as int));
                }
            }
        }
        let mut cur: usize = this;
        let ghost mut p: Seq<int> = seq![this as int];
        loop
            invariant
                forall|l: int|
                    #[trigger] self.canonical(this as int, l) && self.vn(this as int) <= version <= self.vn(
                        this as int,
                    ) + l ==> self.find_room(this as int, cur as int, version as int),
                self.wf(),
                cur < self.len(),
                self.slot_path(p),
                p[0] == this,
                p.last() == cur,
                cur != this ==> self.vn(cur as int) > self.vn(this as int) && version > self.vn(
                    this as int,
                ),
                cur != this && version < self.vn(cur as int) ==> exists|c: int, x: int|
                    self.slot_reach(this as int, c) && self.overshoots(c, x, version as int),
                pow4_table(),
            decreases 65535 - self.vn(cur as int),
        {
            assert(self.slot_reach(this as int, cur as int));
            let own = self.items[cur].get_current_version_number();
            let x = match self.resolve(cur) {
                Ok(x) => x,
                Err(e) => {
                    assert forall|l: int| !#[trigger] self.canonical(this as int, l) by {
                        if self.canonical(this as int, l) {
                            assert(self.canonical_at(this as int, cur as int, l));
                        }
                    }
                    return Err(e);
                },
            };
            let versions = match &self.items[x].state {
                ProbLazyItemState::Ready(s) => &s.data.versions,
                ProbLazyItemState::Pending(_) => return Err(CoreError::InvariantViolation),
            };
            assert(versions@ == self.data(x as int).versions@);
            assert(self.chain_ok(x as int));
            assert(self.resolves(cur as int, x as int));
            if version < own {
                return Ok(None);
            }
            if version == own {
                return Ok(Some(cur));
            }
            let n = versions.len();
            let ghost a = self.vn(cur as int) - self.vn(this as int);
            let ghost t = version - self.vn(this as int);
            proof {
                assert forall|l: int| #[trigger] self.canonical(this as int, l) && self.vn(this as int) <= version
                    <= self.vn(this as int) + l && own < version implies n > 0 by {
                    lemma_canonical_slots(self, this as int, cur as int, x as int, l);
                    lemma_log4_exists(t - a);
                    let i = choose|i: int| #[trigger] log4_is(t - a, i);
                    lemma_digit_room_low(a, t - a, i, i);
                    assert(has_slot(a, i, l));
                }
            }
            if n == 0 {
                assert(self.overshoots(cur as int, x as int, version as int));
                return Ok(None);
            }
            let mut prev = versions[0];
            let mut j: usize = 1;
            while j < n
                invariant
                    1 <= j <= n,
                    n == versions@.len(),
                    versions@ == self.data(x as int).versions@,
                    self.chain_ok(x as int),
                    exists|k: int| 0 <= k < j && prev == versions@[k],
                    prev == versions@[0] || self.vn(prev as int) <= version,
                    prev == versions@[j - 1],
                    forall|k: int| 1 <= k < j ==> self.vn(#[trigger] versions@[k] as int) <= version,
                ensures
                    1 <= j <= n,
                    prev == versions@[j - 1],
                    forall|k: int| 1 <= k < j ==> self.vn(#[trigger] versions@[k] as int) <= version,
                    j < n ==> version < self.vn(versions@[j as int] as int),
                    exists|k: int| 0 <= k < j && prev == versions@[k],
                    prev == versions@[0] || self.vn(prev as int) <= version,
                decreases n - j,
            {
                let next = versions[j];
                if version < self.items[next].get_current_version_number() {
                    break;
                }
                prev = next;
                j = j + 1;
            }
            assert(self.slot_step(cur as int, prev as int));
            let ghost q = p.push(prev as int);
            assert forall|k: int| 0 <= k < q.len() - 1 implies #[trigger] self.slot_step(q[k], q[k + 1]) by {
                if k < p.len() - 1 {
                    assert(q[k] == p[k] && q[k + 1] == p[k + 1]);
                }
            }
            proof {
                p = q;
                let k = choose|k: int| 0 <= k < n && prev == versions@[k];
                assert(self.vn(prev as int) == self.vn(x as int) + pow4(k as nat));
                if version < self.vn(prev as int) {
                    assert forall|m: int| 0 <= m < n implies self.vn(#[trigger] versions@[m] as int) > version by {
                        assert(pow4(m as nat) >= 1);
                    }
                    assert(self.overshoots(cur as int, x as int, version as int));
                    assert(self.slot_reach(this as int, cur as int));
                }
                assert forall|l: int| #[trigger] self.canonical(this as int, l) && self.vn(this as int) <= version
                    <= self.vn(this as int) + l implies self.find_room(this as int, prev as int, version as int) by {
                    lemma_canonical_slots(self, this as int, cur as int, x as int, l);
                    lemma_log4_exists(t - a);
                    let i = choose|i: int| #[trigger] log4_is(t - a, i);
                    assert forall|k: int| 1 <= k <= j - 1 implies a + #[trigger] p4(k) <= t by {
                        assert(self.vn(versions@[k] as int) <= version);
                    }
                    if j < n {
                        assert(version < self.vn(versions@[j as int] as int));
                    }
                    lemma_canonical_find(n as int, a, t - a, t, l, i, j - 1);
                    if a + p4(i) < t {
                        lemma_digit_room_step(a, t - a, i);
                    }
                }
            }
            cur = prev;
        }
    }

    /// A link held as a handle stands for the link held as a locator.
    pub open spec fn link_matches(&self, h: Option<usize>, l: Option<FileIndex>) -> bool {
        match (h, l) {
            (Some(h), Some(l)) => h < self.len() && self.items@[h as int].spec_file_index() == l,
            (None, None) => true,
            _ => false,
        }
    }

    /// A neighbor slot held with a handle stands for the stored slot.
    pub open spec fn slot_matches(&self, n: Option<Neighbor>, s: Option<NeighborRecord>) -> bool {
        match (n, s) {
            (Some(n), Some(s)) => n.id == s.id && n.dist == s.dist && n.node < self.len()
                && self.items@[n.node as int].spec_file_index() == s.loc,
            (None, None) => true,
            _ => false,
        }
    }

    /// The loaded node at `r` is the stored record `v` with every locator
    /// replaced by a handle whose item has that locator.
    pub open spec fn record_matches(&self, r: int, v: NodeRecordView) -> bool {
        let d = self.data(r);
        &&& 0 <= r < self.len()
        &&& self.items@[r].spec_state() is Ready
        &&& self.items@[r].is_level_0 == v.is_level_0
        &&& d.hnsw_level == v.hnsw_level
        &&& d.prop_value == v.prop_value
        &&& d.prop_metadata == v.prop_metadata
        &&& self.link_matches(d.parent, v.parent)
        &&& self.link_matches(d.child, v.child)
        &&& self.link_matches(d.root_version, v.root_version)
        &&& d.neighbors@.len() == v.neighbors.len()
        &&& forall|k: int| 0 <= k < v.neighbors.len() ==> #[trigger] self.slot_matches(d.neighbors@[k], v.neighbors[k])
        &&& d.versions@.len() == v.versions.len()
        &&& forall|k: int|
            0 <= k < v.versions.len() ==> #[trigger] d.versions@[k] < self.len()
                && self.items@[d.versions@[k] as int].spec_file_index() == v.versions[k]
    }

    /// A link that can be stored: in range, and not at an item whose
    /// locator is the absent-link sentinel.
    pub open spec fn link_storable(&self, h: usize) -> bool {
        h < self.len() && self.items@[h as int].spec_file_index() != sentinel()
    }

    /// Every link of `d` can be stored, and its slots fit a 16-bit count.
    pub open spec fn links_storable(&self, d: ProbNode) -> bool {
        &&& d.neighbors@.len() <= 0xffff
        &&& (d.parent matches Some(h) ==> self.link_storable(h))
        &&& (d.child matches Some(h) ==> self.link_storable(h))
        &&& (d.root_version matches Some(h) ==> self.link_storable(h))
        &&& forall|k: int| 0 <= k < d.neighbors@.len() ==> (#[trigger] d.neighbors@[k] matches Some(n) ==> self.link_storable(n.node))
        &&& forall|k: int| 0 <= k < d.versions@.len() ==> self.link_storable(#[trigger] d.versions@[k])
    }

    fn link_of(&self, h: Option<usize>) -> (r: Result<Option<FileIndex>, CoreError>)
        ensures
            match r {
                Ok(l) => self.link_matches(h, l) && l != Some(sentinel()),
                Err(e) => e == CoreError::InvariantViolation,
            },
            r is Ok <==> (h matches Some(x) ==> self.link_storable(x)),
    {
        match h {
            None => Ok(None),
            Some(x) => {
                if x >= self.items.len() {
                    return Err(CoreError::InvariantViolation);
                }
                let f = self.items[x].get_file_index();
                if f.offset.0 == 0xffff_ffff && f.version_number == 0 && f.version_id.0 == 0 {
                    return Err(CoreError::InvariantViolation);
                }
                Ok(Some(f))
            },
        }
    }

    /// The stored form of the loaded node at `r`: each link written as the
    /// locator of the item it points at. Refused when a link is out of
    /// range or points at an item whose locator is the absent-link
    /// sentinel.
    pub fn record_of(&self, r: usize) -> (rec: Result<NodeRecord, CoreError>)
        requires
            self.wf(),
            r < self.len(),
            self.items@[r as int].spec_state() is Ready,
        ensures
            match rec {
                Ok(rec) => self.record_matches(r as int, rec@) && encodable(rec@),
                Err(e) => e == CoreError::InvariantViolation,
            },
            rec is Ok <==> self.links_storable(self.data(r as int)),
    {
        let item = &self.items[r];
        let d = match &item.state {
            ProbLazyItemState::Ready(s) => &s.data,
            ProbLazyItemState::Pending(_) => return Err(CoreError::InvariantViolation),
        };
        assert(*d == self.data(r as int));
        assert(self.chain_ok(r as int));
        if d.neighbors.len() > 0xffff {
            return Err(CoreError::InvariantViolation);
        }
        let parent = self.link_of(d.parent)?;
        let child = self.link_of(d.child)?;
        let root_version = self.link_of(d.root_version)?;
        let mut neighbors: Vec<Option<NeighborRecord>> = Vec::new();
        let mut k: usize = 0;
        while k < d.neighbors.len()
            invariant
                k <= d.neighbors@.len(),
                neighbors@.len() == k,
                forall|j: int| 0 <= j < k ==> #[trigger] self.slot_matches(d.neighbors@[j], neighbors@[j]),
                forall|j: int| 0 <= j < k ==> #[trigger] slot_loc_ok(neighbors@[j]),
                forall|j: int| 0 <= j < k ==> (#[trigger] d.neighbors@[j] matches Some(n) ==> self.link_storable(n.node)),
                *d == self.data(r as int),
            decreases d.neighbors@.len() - k,
        {
            let slot = match d.neighbors[k] {
                None => None,
                Some(n) => match self.link_of(Some(n.node)) {
                    Ok(Some(loc)) => Some(NeighborRecord { id: n.id, loc, dist: n.dist }),
                    _ => {
                        assert(d.neighbors@[k as int] matches Some(n) && !self.link_storable(n.node));
                        return Err(CoreError::InvariantViolation);
                    },
                },
            };
            let ghost before = neighbors@;
            neighbors.push(slot);
            assert(neighbors@[k as int] == slot);
            assert forall|j: int| 0 <= j < k + 1 implies #[trigger] self.slot_matches(d.neighbors@[j], neighbors@[j])
                && slot_loc_ok(neighbors@[j]) by {
                if j < k {
                    assert(neighbors@[j] == before[j]);
                }
            }
            k = k + 1;
        }
        let mut versions: Vec<FileIndex> = Vec::new();
        let mut k: usize = 0;
        while k < d.versions.len()
            invariant
                k <= d.versions@.len(),
                versions@.len() == k,
                forall|j: int|
                    0 <= j < k ==> #[trigger] d.versions@[j] < self.len() && self.items@[d.versions@[j] as int].spec_file_index()
                        == versions@[j] && versions@[j] != sentinel(),
                forall|j: int| 0 <= j < k ==> self.link_storable(#[trigger] d.versions@[j]),
                *d == self.data(r as int),
            decreases d.versions@.len() - k,
        {
            match self.link_of(Some(d.versions[k])) {
                Ok(Some(loc)) => versions.push(loc),
                _ => {
                    assert(!self.link_storable(d.versions@[k as int]));
                    return Err(CoreError::InvariantViolation);
                },
            }
            k = k + 1;
        }
        let rec = NodeRecord {
            is_level_0: item.is_level_0,
            hnsw_level: d.hnsw_level,
            prop_value: d.prop_value,
            prop_metadata: d.prop_metadata,
            parent,
            child,
            root_version,
            neighbors,
            versions,
        };
        proof {
            assert forall|j: int| 0 <= j < rec@.neighbors.len() implies match #[trigger] rec@.neighbors[j] {
                Some(s) => s.loc != sentinel(),
                None => true,
            } by {
                assert(slot_loc_ok(rec@.neighbors[j]));
            }
            assert forall|j: int| 0 <= j < rec@.versions.len() implies #[trigger] rec@.versions[j] != sentinel() by {
                assert(d.versions@[j] < self.len());
            }
        }
        Ok(rec)
    }

    /// `self` holds every item of `before` at the same handle.
    pub open spec fn grows_from(&self, before: &HNSWIndexCache) -> bool {
        &&& self.len() >= before.len()
        &&& forall|j: int| 0 <= j < before.len() ==> #[trigger] self.items@[j] == before.items@[j]
    }

    /// Every ready item of `self` was ready, with its locator, in `before`.
    pub open spec fn no_new_ready(&self, before: &HNSWIndexCache) -> bool {
        forall|l: FileIndex, x: int| #[trigger] self.ready_with(l, x) ==> before.ready_with(l, x)
    }

    /// A handle for locator `loc`: the first item with that locator, or a
    /// new pending item for it.
    pub fn handle_for(&mut self, loc: FileIndex, is_level_0: bool) -> (r: usize)
        requires
            old(self).wf(),
        ensures
            final(self).wf(),
            final(self).grows_from(old(self)),
            r < final(self).len(),
            final(self).items@[r as int].spec_file_index() == loc,
            final(self).no_new_ready(old(self)),
            r < old(self).len() ==> final(self).items@ == old(self).items@ && forall|j: int|
                0 <= j < r ==> old(self).items@[j].spec_file_index() != loc,
            r >= old(self).len() ==> (forall|j: int|
                0 <= j < old(self).len() ==> old(self).items@[j].spec_file_index() != loc) && r == old(
                self,
            ).len() && final(self).items@ == old(self).items@.push(ProbLazyItem {
                state: ProbLazyItemState::Pending(loc),
                is_level_0,
            }),
    {
        let mut i: usize = 0;
        while i < self.items.len()
            invariant
                i <= self.items@.len(),
                *self == *old(self),
                self.wf(),
                forall|j: int| 0 <= j < i ==> self.items@[j].spec_file_index() != loc,
            decreases self.items@.len() - i,
        {
            if self.items[i].get_file_index() == loc {
                return i;
            }
            i = i + 1;
        }
        let item = ProbLazyItem::new_pending(loc, is_level_0);
        match self.add_item(item) {
            Ok(h) => {
                assert(self.items@[h as int] == item);
                assert forall|l: FileIndex, x: int| #[trigger] self.ready_with(l, x) implies old(self).ready_with(l, x) by {
                    if x < h {
                        assert(self.items@[x] == old(self).items@[x]);
                    }
                }
                h
            },
            Err(_) => {
                proof {
                    assert(false);
                }
                0
            },
        }
    }

    /// Loads the record `bytes` as the item for locator `loc`, the step that
    /// turns a pending item's locator into loaded data.
    ///
    /// A locator already loaded gives its handle and changes nothing. Each
    /// link of the record becomes the handle of an item with that locator,
    /// made pending when none is registered yet.
    pub fn load_item(&mut self, bytes: &Vec<u8>, loc: FileIndex) -> (r: Result<usize, CoreError>)
        requires
            old(self).wf(),
        ensures
            final(self).wf(),
            final(self).grows_from(old(self)),
            match r {
                Ok(h) => final(self).ready_with(loc, h as int),
                Err(e) => e == CoreError::Serialization || e == CoreError::InvariantViolation,
            },
            (exists|x: int| old(self).ready_with(loc, x)) ==> r is Ok && final(self).items@ == old(
                self,
            ).items@,
            !(exists|x: int| old(self).ready_with(loc, x)) ==> (r == Err::<usize, CoreError>(
                CoreError::Serialization,
            ) <==> decode_spec(bytes@) is None),
            !(exists|x: int| old(self).ready_with(loc, x)) && r is Ok ==> final(self).record_matches(
                r->Ok_0 as int,
                decode_spec(bytes@)->Some_0,
            ),
            !(exists|x: int| old(self).ready_with(loc, x)) && decode_spec(bytes@) is Some ==> (r is Ok
                <==> versions_spaced(decode_spec(bytes@)->Some_0, loc)),
            r == Err::<usize, CoreError>(CoreError::InvariantViolation) <==> (!(exists|x: int|
                old(self).ready_with(loc, x)) && decode_spec(bytes@) is Some && !versions_spaced(
                decode_spec(bytes@)->Some_0,
                loc,
            )),
    {
        if let Some(h) = self.get_object(loc) {
            return Ok(h);
        }
        let rec = match deserialize_record(bytes) {
            Ok(rec) => rec,
            Err(e) => return Err(e),
        };
        let ghost v = rec@;
        let lvl0 = rec.is_level_0;
        let ghost start = *self;
        let parent = match rec.parent {
            Some(l) => Some(self.handle_for(l, lvl0)),
            None => None,
        };
        let ghost s1 = *self;
        let child = match rec.child {
            Some(l) => Some(self.handle_for(l, lvl0)),
            None => None,
        };
        let ghost s2 = *self;
        assert(self.link_matches(parent, v.parent)) by {
            if let Some(h) = parent {
                assert(self.items@[h as int] == s1.items@[h as int]);
            }
        }
        let root_version = match rec.root_version {
            Some(l) => Some(self.handle_for(l, lvl0)),
            None => None,
        };
        assert(self.no_new_ready(&start)) by {
            assert forall|l: FileIndex, x: int| #[trigger] self.ready_with(l, x) implies start.ready_with(l, x) by {
                assert(s2.ready_with(l, x));
                assert(s1.ready_with(l, x));
            }
        }
        assert(self.link_matches(parent, v.parent) && self.link_matches(child, v.child)) by {
            if let Some(h) = parent {
                assert(self.items@[h as int] == s2.items@[h as int]);
            }
            if let Some(h) = child {
                assert(self.items@[h as int] == s2.items@[h as int]);
            }
        }
        let mut neighbors: Vec<Option<Neighbor>> = Vec::new();
        let mut k: usize = 0;
        while k < rec.neighbors.len()
            invariant
                self.wf(),
                self.grows_from(&start),
                self.no_new_ready(&start),
                forall|x: int| !start.ready_with(loc, x),
                v == rec@,
                !(exists|x: int| start.ready_with(loc, x)),
                k <= v.neighbors.len(),
                neighbors@.len() == k,
                self.link_matches(parent, v.parent),
                self.link_matches(child, v.child),
                self.link_matches(root_version, v.root_version),
                forall|j: int| 0 <= j < k ==> #[trigger] self.slot_matches(neighbors@[j], v.neighbors[j]),
            decreases v.neighbors.len() - k,
        {
            let ghost before = *self;
            let ghost nb = neighbors@;
            let slot = match rec.neighbors[k] {
                None => None,
                Some(s) => Some(Neighbor { id: s.id, node: self.handle_for(s.loc, lvl0), dist: s.dist }),
            };
            neighbors.push(slot);
            proof {
                lemma_grows_keeps_links(&before, self, parent, v.parent);
                lemma_grows_keeps_links(&before, self, child, v.child);
                lemma_grows_keeps_links(&before, self, root_version, v.root_version);
                assert forall|j: int| 0 <= j < k + 1 implies #[trigger] self.slot_matches(neighbors@[j], v.neighbors[j]) by {
                    if j < k {
                        assert(neighbors@[j] == nb[j]);
                        assert(before.slot_matches(nb[j], v.neighbors[j]));
                        if let Some(n) = nb[j] {
                            assert(self.items@[n.node as int] == before.items@[n.node as int]);
                        }
                    }
                }
                assert(self.grows_from(&start)) by {
                    assert forall|j: int| 0 <= j < start.len() implies #[trigger] self.items@[j] == start.items@[j] by {
                        assert(before.items@[j] == start.items@[j]);
                    }
                }
                assert forall|l: FileIndex, x: int| #[trigger] self.ready_with(l, x) implies start.ready_with(l, x) by {
                    assert(before.ready_with(l, x));
                }
            }
            k = k + 1;
        }
        let mut versions: Vec<usize> = Vec::new();
        let mut k: usize = 0;
        while k < rec.versions.len()
            invariant
                self.wf(),
                self.grows_from(&start),
                self.no_new_ready(&start),
                forall|x: int| !start.ready_with(loc, x),
                v == rec@,
                !(exists|x: int| start.ready_with(loc, x)),
                k <= v.versions.len(),
                versions@.len() == k,
                self.link_matches(parent, v.parent),
                self.link_matches(child, v.child),
                self.link_matches(root_version, v.root_version),
                neighbors@.len() == v.neighbors.len(),
                forall|j: int| 0 <= j < v.neighbors.len() ==> #[trigger] self.slot_matches(neighbors@[j], v.neighbors[j]),
                forall|j: int|
                    0 <= j < k ==> #[trigger] versions@[j] < self.len() && self.items@[versions@[j] as int].spec_file_index()
                        == v.versions[j],
            decreases v.versions.len() - k,
        {
            let ghost before = *self;
            let ghost vs = versions@;
            let h = self.handle_for(rec.versions[k], lvl0);
            versions.push(h);
            proof {
                lemma_grows_keeps_links(&before, self, parent, v.parent);
                lemma_grows_keeps_links(&before, self, child, v.child);
                lemma_grows_keeps_links(&before, self, root_version, v.root_version);
                assert forall|j: int| 0 <= j < v.neighbors.len() implies #[trigger] self.slot_matches(neighbors@[j], v.neighbors[j]) by {
                    assert(before.slot_matches(neighbors@[j], v.neighbors[j]));
                    if let Some(n) = neighbors@[j] {
                        assert(self.items@[n.node as int] == before.items@[n.node as int]);
                    }
                }
                assert forall|j: int| 0 <= j < k + 1 implies #[trigger] versions@[j] < self.len()
                    && self.items@[versions@[j] as int].spec_file_index() == v.versions[j] by {
                    if j < k {
                        assert(versions@[j] == vs[j]);
                        assert(self.items@[vs[j] as int] == before.items@[vs[j] as int]);
                    }
                }
                assert(self.grows_from(&start)) by {
                    assert forall|j: int| 0 <= j < start.len() implies #[trigger] self.items@[j] == start.items@[j] by {
                        assert(before.items@[j] == start.items@[j]);
                    }
                }
                assert forall|l: FileIndex, x: int| #[trigger] self.ready_with(l, x) implies start.ready_with(l, x) by {
                    assert(before.ready_with(l, x));
                }
            }
            k = k + 1;
        }
        let node = ProbNode {
            hnsw_level: rec.hnsw_level,
            prop_value: rec.prop_value,
            prop_metadata: rec.prop_metadata,
            parent,
            child,
            root_version,
            neighbors,
            versions,
        };
        let item = ProbLazyItem::new(node, loc.version_id, loc.version_number, lvl0, loc.offset);
        let ghost before = *self;
        proof {
            assert forall|x: int| !before.ready_with(loc, x) by {
                if before.ready_with(loc, x) {
                    assert(start.ready_with(loc, x));
                }
            }
            assert forall|i: int| 0 <= i < v.versions.len() implies #[trigger] before.vn(versions@[i] as int)
                == v.versions[i].version_number as int by {
            }
            if versions_spaced(v, loc) {
                assert(before.item_fits(item));
            }
        }
        let res = self.add_item(item);
        match res {
            Ok(h) => {
                proof {
                    assert forall|i: int| 0 <= i < v.versions.len() implies #[trigger] v.versions[i].version_number as int
                        == loc.version_number + pow4(i as nat) by {
                        assert(before.vn(versions@[i] as int) == v.versions[i].version_number as int);
                    }
                    lemma_grows_keeps_links(&before, self, parent, v.parent);
                    lemma_grows_keeps_links(&before, self, child, v.child);
                    lemma_grows_keeps_links(&before, self, root_version, v.root_version);
                    assert(self.items@[h as int] == item);
                    assert forall|j: int| 0 <= j < v.neighbors.len() implies #[trigger] self.slot_matches(self.data(h as int).neighbors@[j], v.neighbors[j]) by {
                        assert(before.slot_matches(self.data(h as int).neighbors@[j], v.neighbors[j]));
                        if let Some(n) = self.data(h as int).neighbors@[j] {
                            assert(self.items@[n.node as int] == before.items@[n.node as int]);
                        }
                    }
                    assert forall|j: int| 0 <= j < v.versions.len() implies #[trigger] self.data(h as int).versions@[j] < self.len()
                        && self.items@[self.data(h as int).versions@[j] as int].spec_file_index() == v.versions[j] by {
                        let x = self.data(h as int).versions@[j];
                        assert(self.items@[x as int] == before.items@[x as int]);
                    }
                    assert(self.grows_from(old(self))) by {
                        assert forall|j: int| 0 <= j < start.len() implies #[trigger] self.items@[j] == start.items@[j] by {
                            assert(before.items@[j] == start.items@[j]);
                        }
                    }
                }
                Ok(h)
            },
            Err(e) => Err(e),
        }
    }

    pub fn new() -> (r: Self)
        ensures
            r.wf(),
            r.len() == 0,
    {
        HNSWIndexCache { items: Vec::new() }
    }

    /// Looks a locator up among the loaded items.
    pub fn get_object(&self, loc: FileIndex) -> (r: Option<usize>)
        ensures
            match r {
                Some(x) => self.ready_with(loc, x as int),
                None => forall|x: int| !self.ready_with(loc, x),
            },
    {
        let mut i: usize = 0;
        while i < self.items.len()
            invariant
                i <= self.items@.len(),
                forall|x: int| 0 <= x < i ==> !self.ready_with(loc, x),
            decreases self.items@.len() - i,
        {
            if self.items[i].is_ready() && self.items[i].get_file_index() == loc {
                return Some(i);
            }
            i = i + 1;
        }
        None
    }

    /// The handle of the loaded item that `h` stands for.
    pub fn resolve(&self, h: usize) -> (r: Result<usize, CoreError>)
        requires
            h < self.len(),
        ensures
            match r {
                Ok(x) => self.resolves(h as int, x as int),
                Err(e) => e == CoreError::NotLoaded(self.items@[h as int].spec_file_index())
                    && forall|x: int| !self.resolves(h as int, x),
            },
    {
        if self.items[h].is_ready() {
            return Ok(h);
        }
        let loc = self.items[h].get_file_index();
        match self.get_object(loc) {
            Some(x) => Ok(x),
            None => Err(CoreError::NotLoaded(loc)),
        }
    }

    /// The node that `h` stands for: its own data when ready, else the
    /// loaded record with its locator. Resolution takes one lookup.
    pub fn try_get_data(&self, h: usize) -> (r: Result<&ProbNode, CoreError>)
        requires
            h < self.len(),
        ensures
            match r {
                Ok(d) => exists|x: int| self.resolves(h as int, x) && *d == self.data(x),
                Err(e) => e == CoreError::NotLoaded(self.items@[h as int].spec_file_index())
                    && forall|x: int| !self.resolves(h as int, x),
            },
    {
        let x = self.resolve(h)?;
        match &self.items[x].state {
            ProbLazyItemState::Ready(s) => {
                assert(self.resolves(h as int, x as int) && s.data == self.data(x as int));
                Ok(&s.data)
            },
            ProbLazyItemState::Pending(_) => Err(CoreError::NotLoaded(self.items[h].get_file_index())),
        }
    }
}

/// Writing a loaded node with `record_of` and `serialize_record`, then
/// reading the bytes back with `load_item` (into the same cache or another),
/// gives a node that matches the same record: equal level, flag, property
/// references, neighbor ids and distances, and links to items with equal
/// locators. Links compare by locator, so cycles need no unfolding.
pub proof fn lemma_serialization_round_trip(
    c1: &HNSWIndexCache,
    h1: int,
    rec: NodeRecordView,
    c2: &HNSWIndexCache,
    h2: int,
)
    requires
        c1.record_matches(h1, rec),
        encodable(rec),
        c2.record_matches(h2, decode_spec(encode_spec(rec))->Some_0),
    ensures
        decode_spec(encode_spec(rec)) == Some(rec),
        c2.record_matches(h2, rec),
{
    lemma_record_round_trip(rec);
}

/// Once a record is loaded for a locator, every handle with that locator
/// resolves to it in one lookup, so `try_get_data` on it returns the data.
pub proof fn lemma_loaded_locator_resolves(c: &HNSWIndexCache, loc: FileIndex, x: int, h: int)
    requires
        c.ready_with(loc, x),
        0 <= h < c.len(),
        c.items@[h].spec_file_index() == loc,
    ensures
        c.resolves(h, x),
{
}

/// The version slots of record `v`, loaded at locator `loc`, are spaced as
/// a version chain needs: slot `i` is `4^i` versions above `loc`.
pub open spec fn versions_spaced(v: NodeRecordView, loc: FileIndex) -> bool {
    forall|i: int|
        0 <= i < v.versions.len() ==> #[trigger] v.versions[i].version_number as int == loc.version_number
            + pow4(i as nat)
}

/// Growing the cache keeps a link pointing at the locator it pointed at.
pub proof fn lemma_grows_keeps_links(a: &HNSWIndexCache, b: &HNSWIndexCache, h: Option<usize>, l: Option<FileIndex>)
    requires
        b.grows_from(a),
        a.link_matches(h, l),
    ensures
        b.link_matches(h, l),
{
    if let Some(x) = h {
        assert(b.items@[x as int] == a.items@[x as int]);
    }
}

/// `4^i` as an integer.
pub open spec fn p4(i: int) -> int {
    pow4(i as nat) as int
}

/// `i` is the exponent of the largest power of four not above `d`.
pub open spec fn log4_is(d: int, i: int) -> bool {
    0 <= i < 8 && p4(i) <= d < p4(i + 1)
}

/// `a`, `d` away from the end of a walk, has the base-4 digit room that
/// the walk needs: at the scale of `d`'s largest power of four, `a` has no
/// lower digits and its digit there plus `d`'s does not carry.
pub open spec fn digit_room(a: int, d: int) -> bool {
    forall|i: int|
        #![trigger log4_is(d, i)]
        log4_is(d, i) ==> a % p4(i) == 0 && (a / p4(i)) % 4 + d / p4(i) <= 3
}

/// A node `a` versions above the start of a chain whose newest version is
/// `l` above it holds slot `i` exactly when `4^i` divides `a`, the base-4
/// digit of `a` at `4^i` is not 3, and `a + 4^i` is at most `l`.
pub open spec fn has_slot(a: int, i: int, l: int) -> bool {
    &&& a % p4(i) == 0
    &&& (a / p4(i)) % 4 != 3
    &&& a + p4(i) <= l
}

/// Every `d` from 1 to 65535 has a largest power of four below it.
pub proof fn lemma_log4_exists(d: int)
    requires
        1 <= d < 65536,
    ensures
        exists|i: int| #[trigger] log4_is(d, i),
{
    lemma_pow4_values();
    if d < 4 {
        assert(log4_is(d, 0));
    } else if d < 16 {
        assert(log4_is(d, 1));
    } else if d < 64 {
        assert(log4_is(d, 2));
    } else if d < 256 {
        assert(log4_is(d, 3));
    } else if d < 1024 {
        assert(log4_is(d, 4));
    } else if d < 4096 {
        assert(log4_is(d, 5));
    } else if d < 16384 {
        assert(log4_is(d, 6));
    } else {
        assert(log4_is(d, 7));
    }
}

/// Digit room at the start of a walk: nothing lies below a chain's start.
pub proof fn lemma_digit_room_start(d: int)
    requires
        1 <= d,
    ensures
        digit_room(0, d),
{
    assert forall|i: int| #![trigger log4_is(d, i)] log4_is(d, i) implies 0int % p4(i) == 0 && (0int / p4(i)) % 4 + d / p4(i) <= 3 by {
        let p = p4(i);
        lemma_pow4_values();
        assert(p > 0);
        assert(p4(i + 1) == 4 * p);
        assert(d / p <= 3) by (nonlinear_arith)
            requires d < 4 * p, p > 0;
    }
}

/// `4^k` is positive.
pub proof fn lemma_p4_positive(k: int)
    requires
        k >= 0,
    ensures
        p4(k) >= 1,
    decreases k,
{
    if k > 0 {
        lemma_p4_positive(k - 1);
    }
}

/// `4^i = 4^j * 4^(i-j)`.
pub proof fn lemma_p4_split(i: int, j: int)
    requires
        0 <= j <= i,
    ensures
        p4(i) == p4(j) * p4(i - j),
    decreases i - j,
{
    if j < i {
        lemma_p4_split(i - 1, j);
        assert(p4(i) == 4 * p4(i - 1));
        assert(p4(i - j) == 4 * p4(i - 1 - j));
        assert(p4(j) * (4 * p4(i - 1 - j)) == 4 * (p4(j) * p4(i - 1 - j))) by (nonlinear_arith);
    } else {
        assert(p4(0) == 1) by {
            reveal_with_fuel(pow4, 1);
        }
        assert(p4(i) * 1 == p4(i));
    }
}

/// A non-negative multiple of `4^i` has no base-4 digits below `4^i`.
pub proof fn lemma_multiple_low(x: int, m: int, i: int, j: int)
    requires
        m >= 0,
        0 <= j < i,
        x == p4(i) * m,
    ensures
        x % p4(j) == 0,
        (x / p4(j)) % 4 == 0,
{
    lemma_p4_split(i, j);
    lemma_p4_positive(j);
    let q = p4(j);
    let r = p4(i - j);
    assert(r % 4 == 0) by {
        assert(r == 4 * p4(i - j - 1));
        vstd::arithmetic::div_mod::lemma_mod_multiples_basic(p4(i - j - 1), 4);
        assert(p4(i - j - 1) * 4 == 4 * p4(i - j - 1));
    }
    assert(x == q * (r * m)) by (nonlinear_arith)
        requires x == p4(i) * m, p4(i) == q * r;
    vstd::arithmetic::div_mod::lemma_fundamental_div_mod_converse(x, q, r * m, 0);
    vstd::arithmetic::div_mod::lemma_mul_mod_noop_left(r, m, 4);
    assert((0int * m) % 4 == 0);
}

/// One step down the walk keeps the digit room: from `a` with `d` to go,
/// taking the slot `4^i` of `d`'s largest power leaves `a + 4^i` with
/// `d - 4^i` to go.
pub proof fn lemma_digit_room_step(a: int, d: int, i: int)
    requires
        a >= 0,
        digit_room(a, d),
        log4_is(d, i),
        d > p4(i),
    ensures
        digit_room(a + p4(i), d - p4(i)),
{
    lemma_pow4_values();
    assert(log4_is(d, i));
    let p = p4(i);
    lemma_p4_positive(i);
    let m = a / p;
    vstd::arithmetic::div_mod::lemma_fundamental_div_mod(a, p);
    assert(a == p * m);
    assert(m >= 0) by (nonlinear_arith)
        requires a >= 0, p > 0, m == a / p;
    let e = d / p;
    vstd::arithmetic::div_mod::lemma_fundamental_div_mod(d, p);
    assert(e >= 1) by (nonlinear_arith)
        requires d >= p, p > 0, e == d / p;
    assert forall|k: int| #![trigger log4_is(d - p, k)] log4_is(d - p, k) implies (a + p) % p4(k) == 0 && ((a + p)
        / p4(k)) % 4 + (d - p) / p4(k) <= 3 by {
        assert(k <= i) by {
            if k > i {
                lemma_p4_split(k, i + 1);
                lemma_p4_positive(k - i - 1);
                assert(p4(k) >= p4(i + 1)) by (nonlinear_arith)
                    requires p4(k) == p4(i + 1) * p4(k - i - 1), p4(k - i - 1) >= 1, p4(i + 1) >= 1;
            }
        }
        assert(a + p == p * (m + 1)) by (nonlinear_arith)
            requires a == p * m;
        if k == i {
            assert((m + 1) * p == p * (m + 1)) by (nonlinear_arith);
            vstd::arithmetic::div_mod::lemma_fundamental_div_mod_converse(a + p, p, m + 1, 0);
            vstd::arithmetic::div_mod::lemma_mod_pos_bound(d, p);
            assert((e - 1) * p == p * e - p) by (nonlinear_arith);
            vstd::arithmetic::div_mod::lemma_fundamental_div_mod_converse(d - p, p, e - 1, d % p);
            vstd::arithmetic::div_mod::lemma_fundamental_div_mod(m, 4);
            vstd::arithmetic::div_mod::lemma_fundamental_div_mod_converse(m + 1, 4, m / 4, m % 4 + 1);
        } else {
            lemma_multiple_low(a + p, m + 1, i, k);
            lemma_p4_positive(k);
            assert(p4(k + 1) == 4 * p4(k));
            let q = p4(k);
            assert((d - p) / q <= 3) by (nonlinear_arith)
                requires d - p < 4 * q, q > 0, d - p >= 0;
        }
    }
}

/// A node on the walk, at the scale of the walk's next step `4^i`, has no
/// lower base-4 digits and a digit other than 3 at `4^i`; below that scale
/// its digits are 0.
pub proof fn lemma_digit_room_low(a: int, d: int, i: int, j: int)
    requires
        a >= 0,
        digit_room(a, d),
        log4_is(d, i),
        0 <= j <= i,
    ensures
        j < i ==> a % p4(j) == 0,
        j < i ==> (a / p4(j)) % 4 == 0,
        (a / p4(i)) % 4 != 3,
        a % p4(i) == 0,
{
    assert(log4_is(d, i));
    let p = p4(i);
    lemma_p4_positive(i);
    assert(d / p >= 1) by (nonlinear_arith)
        requires d >= p, p > 0;
    if j < i {
        let m = a / p;
        vstd::arithmetic::div_mod::lemma_fundamental_div_mod(a, p);
        assert(m >= 0) by (nonlinear_arith)
            requires a >= 0, p > 0, m == a / p;
        lemma_multiple_low(a, m, i, j);
    }
}

/// `4^i <= 4^j` for `i <= j`, strictly for `i < j`.
pub proof fn lemma_p4_mono(i: int, j: int)
    requires
        0 <= i <= j,
    ensures
        p4(i) <= p4(j),
        i < j ==> p4(i) < p4(j),
{
    lemma_p4_split(j, i);
    lemma_p4_positive(i);
    lemma_p4_positive(j - i);
    if i < j {
        lemma_p4_positive(j - i - 1);
        assert(p4(j - i) == 4 * p4(j - i - 1));
        assert(p4(i) < p4(j)) by (nonlinear_arith)
            requires p4(j) == p4(i) * p4(j - i), p4(j - i) >= 4, p4(i) >= 1;
    } else {
        assert(p4(i) <= p4(j)) by (nonlinear_arith)
            requires p4(j) == p4(i) * p4(j - i), p4(j - i) >= 1, p4(i) >= 1;
    }
}

/// On the lookup walk of a canonical chain towards `t`, the last slot of
/// node `a` that does not pass `t` is the slot of the largest power of
/// four in `t - a`.
pub proof fn lemma_canonical_find(len: int, a: int, d: int, t: int, l: int, i: int, jm: int)
    requires
        0 <= len <= 8,
        a >= 0,
        d >= 1,
        a + d == t,
        t <= l,
        digit_room(a, d),
        log4_is(d, i),
        forall|j: int| 0 <= j < 8 ==> (j < len <==> #[trigger] has_slot(a, j, l)),
        0 <= jm < len,
        forall|k: int| 1 <= k <= jm ==> a + #[trigger] p4(k) <= t,
        jm + 1 < len ==> a + p4(jm + 1) > t,
    ensures
        jm == i,
{
    lemma_digit_room_low(a, d, i, i);
    assert(has_slot(a, i, l));
    if jm < i {
        lemma_p4_mono(jm + 1, i);
    } else if jm > i {
        lemma_p4_mono(i + 1, jm);
        assert(a + p4(jm) <= t);
    }
}

/// On the insertion walk of a canonical chain towards `l + 1`, the node
/// `a` with `d` to go holds the slot of `d`'s largest power `4^i` when
/// `4^i < d`, and has exactly `i` slots, so that the next free one is at
/// distance `d`, when `4^i == d`.
pub proof fn lemma_canonical_descent(len: int, a: int, d: int, l: int, i: int)
    requires
        0 <= len <= 8,
        a >= 0,
        d >= 1,
        a + d == l + 1,
        digit_room(a, d),
        log4_is(d, i),
        forall|j: int| 0 <= j < 8 ==> (j < len <==> #[trigger] has_slot(a, j, l)),
    ensures
        p4(i) < d ==> i < len,
        p4(i) == d ==> len == i,
{
    lemma_digit_room_low(a, d, i, i);
    if p4(i) < d {
        assert(has_slot(a, i, l));
    } else if p4(i) == d {
        assert forall|j: int| 0 <= j < 8 implies (j < i <==> #[trigger] has_slot(a, j, l)) by {
            if j < i {
                lemma_digit_room_low(a, d, i, j);
                lemma_p4_split(i, j);
                lemma_p4_positive(j);
                lemma_p4_positive(i - j - 1);
                assert(p4(i - j) == 4 * p4(i - j - 1));
                assert(p4(j) < p4(i)) by (nonlinear_arith)
                    requires p4(i) == p4(j) * p4(i - j), p4(i - j) >= 4, p4(j) >= 1;
            } else {
                lemma_p4_split(j, i);
                lemma_p4_positive(j - i);
                lemma_p4_positive(i);
                assert(p4(j) >= p4(i)) by (nonlinear_arith)
                    requires p4(j) == p4(i) * p4(j - i), p4(j - i) >= 1, p4(i) >= 1;
            }
        }
        if len > i {
            assert(has_slot(a, i, l));
        }
        if len < i {
            assert(has_slot(a, len, l));
        }
    }
}

/// A slot step from a reached node reaches its target.
pub proof fn lemma_reach_extend(c: &HNSWIndexCache, this: int, a: int, b: int)
    requires
        c.slot_reach(this, a),
        c.slot_step(a, b),
    ensures
        c.slot_reach(this, b),
{
    let p = choose|p: Seq<int>| c.slot_path(p) && p[0] == this && p.last() == a;
    let q = p.push(b);
    assert forall|i: int| 0 <= i < q.len() - 1 implies #[trigger] c.slot_step(q[i], q[i + 1]) by {
        if i < p.len() - 1 {
            assert(q[i] == p[i] && q[i + 1] == p[i + 1]);
        }
    }
    assert(c.slot_path(q) && q[0] == this && q.last() == b);
}

/// Every node of a canonical chain lies between its start and its newest
/// version.
pub proof fn lemma_canonical_path_bounded(c: &HNSWIndexCache, this: int, l: int, p: Seq<int>)
    requires
        c.wf(),
        c.canonical(this, l),
        c.slot_path(p),
        p[0] == this,
    ensures
        forall|k: int|
            0 <= k < p.len() ==> 0 <= c.vn(#[trigger] p[k]) - c.vn(this) <= l && c.slot_reach(this, p[k]),
    decreases p.len(),
{
    if p.len() > 1 {
        let n = p.len() as int;
        let q = p.drop_last();
        assert forall|i: int| 0 <= i < q.len() - 1 implies #[trigger] c.slot_step(q[i], q[i + 1]) by {
            assert(q[i] == p[i] && q[i + 1] == p[i + 1]);
            assert(c.slot_step(p[i], p[i + 1]));
        }
        lemma_canonical_path_bounded(c, this, l, q);
        assert(q[n - 2] == p[n - 2]);
        let k2 = n - 2;
        assert(c.slot_step(p[k2], p[k2 + 1]));
        assert(k2 + 1 == n - 1);
        let (r, idx) = choose|r: int, i: int|
            c.resolves(p[n - 2], r) && 0 <= i < c.data(r).versions@.len() && p[n - 1] == c.data(r).versions@[i] as int;
        lemma_canonical_slots(c, this, p[n - 2], r, l);
        assert(c.chain_ok(r));
        assert(has_slot(c.vn(p[n - 2]) - c.vn(this), idx, l));
        lemma_p4_positive(idx);
        lemma_reach_extend(c, this, p[n - 2], p[n - 1]);
        assert forall|k: int| 0 <= k < p.len() implies 0 <= c.vn(#[trigger] p[k]) - c.vn(this) <= l && c.slot_reach(this, p[k]) by {
            if k < n - 1 {
                assert(p[k] == q[k]);
            }
        }
    } else {
        assert(c.slot_path(p) && p[0] == this && p.last() == this);
    }
}

/// Moving a node up by its own slot's power keeps a non-zero digit there.
pub proof fn lemma_digit_up(a: int, i: int)
    requires
        a >= 0,
        i >= 0,
        a % p4(i) == 0,
        (a / p4(i)) % 4 != 3,
    ensures
        a / p4(i) >= 0,
        a + p4(i) == p4(i) * (a / p4(i) + 1),
        ((a + p4(i)) / p4(i)) % 4 != 0,
{
    let p = p4(i);
    lemma_p4_positive(i);
    let m = a / p;
    vstd::arithmetic::div_mod::lemma_fundamental_div_mod(a, p);
    assert(m >= 0) by (nonlinear_arith)
        requires a >= 0, p > 0, m == a / p;
    assert(a + p == p * (m + 1)) by (nonlinear_arith)
        requires a == p * m;
    assert((m + 1) * p == p * (m + 1)) by (nonlinear_arith);
    vstd::arithmetic::div_mod::lemma_fundamental_div_mod_converse(a + p, p, m + 1, 0);
    vstd::arithmetic::div_mod::lemma_fundamental_div_mod(m, 4);
    vstd::arithmetic::div_mod::lemma_fundamental_div_mod_converse(m + 1, 4, m / 4, m % 4 + 1);
}

/// A version number has at most one parent slot in the layout: the node
/// and the slot power that reach it are unique.
pub proof fn lemma_parent_unique(a: int, i: int, b: int, j: int)
    requires
        a >= 0,
        b >= 0,
        0 <= i,
        0 <= j,
        a % p4(i) == 0,
        (a / p4(i)) % 4 != 3,
        b % p4(j) == 0,
        (b / p4(j)) % 4 != 3,
        a + p4(i) == b + p4(j),
    ensures
        i == j,
        a == b,
{
    lemma_digit_up(a, i);
    lemma_digit_up(b, j);
    if i < j {
        lemma_multiple_low(b + p4(j), b / p4(j) + 1, j, i);
    } else if j < i {
        lemma_multiple_low(a + p4(i), a / p4(i) + 1, i, j);
    }
}

/// `f` is `o` with one more version slot on the loaded node `h`: loading,
/// locators and every other node are as before.
pub proof fn lemma_pushed_same(o: &HNSWIndexCache, f: &HNSWIndexCache, h: int, version: usize)
    requires
        f.version_pushed(o, h, version),
        0 <= h < o.len(),
        o.items@[h].spec_state() is Ready,
    ensures
        forall|j: int| 0 <= j < o.len() ==> #[trigger] f.items@[j].spec_file_index() == o.items@[j].spec_file_index(),
        forall|j: int| 0 <= j < o.len() ==> (f.items@[j].spec_state() is Ready <==> #[trigger] o.items@[j].spec_state() is Ready),
        forall|j: int| 0 <= j < o.len() && j != h ==> #[trigger] f.data(j) == o.data(j),
        forall|a: int, r: int| #[trigger] f.resolves(a, r) <==> o.resolves(a, r),
        forall|j: int| 0 <= j < o.len() ==> #[trigger] f.vn(j) == o.vn(j),
{
    assert forall|j: int| 0 <= j < o.len() && j != h implies #[trigger] f.items@[j] == o.items@[j] by {}
    assert forall|a: int, r: int| #[trigger] f.resolves(a, r) <==> o.resolves(a, r) by {
        if 0 <= a < o.len() && 0 <= r < o.len() {
            if a != h {
                assert(f.items@[a] == o.items@[a]);
            }
            if r != h {
                assert(f.items@[r] == o.items@[r]);
            }
        }
    }
    assert forall|j: int| 0 <= j < o.len() implies #[trigger] f.vn(j) == o.vn(j) by {
        if j != h {
            assert(f.items@[j] == o.items@[j]);
        }
    }
}

/// After the new version is appended to `h`, every path from `this` is a
/// path of the old chain, or one that ends at the new version.
pub proof fn lemma_pushed_path(
    o: &HNSWIndexCache,
    f: &HNSWIndexCache,
    this: int,
    l: int,
    h: int,
    version: usize,
    xv: int,
    p: Seq<int>,
)
    requires
        o.wf(),
        f.version_pushed(o, h, version),
        o.canonical(this, l),
        0 <= h < o.len(),
        o.items@[h].spec_state() is Ready,
        o.vn(h) <= o.vn(this) + l,
        o.resolves(version as int, xv),
        o.data(xv).versions@.len() == 0,
        o.vn(version as int) == o.vn(this) + l + 1,
        f.slot_path(p),
        p[0] == this,
    ensures
        forall|k: int|
            0 <= k < p.len() ==> o.slot_reach(this, #[trigger] p[k]) || (k == p.len() - 1 && p[k] == version),
    decreases p.len(),
{
    lemma_pushed_same(o, f, h, version);
    if p.len() > 1 {
        let n = p.len() as int;
        let q = p.drop_last();
        assert forall|i: int| 0 <= i < q.len() - 1 implies #[trigger] f.slot_step(q[i], q[i + 1]) by {
            assert(q[i] == p[i] && q[i + 1] == p[i + 1]);
            assert(f.slot_step(p[i], p[i + 1]));
        }
        lemma_pushed_path(o, f, this, l, h, version, xv, q);
        let k2 = n - 2;
        assert(f.slot_step(p[k2], p[k2 + 1]));
        assert(q[k2] == p[k2]);
        let (r, idx) = choose|r: int, i: int|
            f.resolves(p[k2], r) && 0 <= i < f.data(r).versions@.len() && p[k2 + 1] == f.data(r).versions@[i] as int;
        assert(o.resolves(p[k2], r));
        if p[k2] == version {
            assert(o.ready_with(o.items@[version as int].spec_file_index(), r));
            assert(o.ready_with(o.items@[version as int].spec_file_index(), xv));
            assert(r == xv);
            assert(o.vn(r) == o.vn(version as int));
            assert(r != h);
            assert(false);
        }
        assert(o.slot_reach(this, p[k2]));
        if r != h {
            assert(o.slot_step(p[k2], p[k2 + 1]));
            lemma_reach_extend(o, this, p[k2], p[k2 + 1]);
        } else if idx < o.data(h).versions@.len() {
            assert(f.data(h).versions@[idx] == o.data(h).versions@[idx]);
            assert(o.slot_step(p[k2], p[k2 + 1]));
            lemma_reach_extend(o, this, p[k2], p[k2 + 1]);
        } else {
            assert(p[k2 + 1] == version);
        }
        assert forall|k: int| 0 <= k < p.len() implies o.slot_reach(this, #[trigger] p[k]) || (k == p.len() - 1
            && p[k] == version) by {
            if k < n - 1 {
                assert(p[k] == q[k]);
            }
        }
    } else {
        assert(o.slot_path(p) && p[0] == this && p.last() == this);
        assert(o.slot_reach(this, p[0]));
    }
}

/// Appending version `l + 1` where the insertion walk puts it keeps a
/// canonical chain canonical, now with newest version `l + 1`.
pub proof fn lemma_push_keeps_canonical(
    o: &HNSWIndexCache,
    f: &HNSWIndexCache,
    this: int,
    l: int,
    cur: int,
    h: int,
    version: usize,
    xv: int,
    i: int,
)
    requires
        o.wf(),
        f.wf(),
        f.version_pushed(o, h, version),
        o.canonical(this, l),
        o.vn(version as int) == o.vn(this) + l + 1,
        o.resolves(version as int, xv),
        o.data(xv).versions@.len() == 0,
        o.slot_reach(this, cur),
        o.resolves(cur, h),
        0 <= i < 8,
        o.data(h).versions@.len() == i,
        (o.vn(cur) - o.vn(this)) % p4(i) == 0,
        ((o.vn(cur) - o.vn(this)) / p4(i)) % 4 != 3,
        o.vn(cur) - o.vn(this) + p4(i) == l + 1,
    ensures
        f.canonical(this, l + 1),
{
    lemma_pushed_same(o, f, h, version);
    let a = o.vn(cur) - o.vn(this);
    let pc = choose|p: Seq<int>| o.slot_path(p) && p[0] == this && p.last() == cur;
    lemma_canonical_path_bounded(o, this, l, pc);
    assert(pc[pc.len() - 1] == cur);
    assert(0 <= a <= l);
    assert(o.vn(h) == o.vn(cur));
    assert(o.vn(xv) == o.vn(version as int));
    assert(xv != h);
    assert forall|c: int| #[trigger] f.slot_reach(this, c) implies f.canonical_at(this, c, l + 1) by {
        let p = choose|p: Seq<int>| f.slot_path(p) && p[0] == this && p.last() == c;
        lemma_pushed_path(o, f, this, l, h, version, xv, p);
        assert(p[p.len() - 1] == c);
        if o.slot_reach(this, c) {
            assert(o.canonical_at(this, c, l));
            let x = choose|x: int|
                o.resolves(c, x) && forall|j: int|
                    0 <= j < 8 ==> (j < o.data(x).versions@.len() <==> #[trigger] has_slot(o.vn(c) - o.vn(this), j, l));
            let pp = choose|p: Seq<int>| o.slot_path(p) && p[0] == this && p.last() == c;
            lemma_canonical_path_bounded(o, this, l, pp);
            assert(pp[pp.len() - 1] == c);
            let ac = o.vn(c) - o.vn(this);
            assert(0 <= ac <= l);
            if x == h {
                assert(o.vn(c) == o.vn(h));
                assert forall|j: int| 0 <= j < 8 implies (j < f.data(x).versions@.len() <==> #[trigger] has_slot(
                    f.vn(c) - f.vn(this),
                    j,
                    l + 1,
                )) by {
                    if j < i {
                        assert(has_slot(a, j, l));
                    } else if j > i {
                        lemma_p4_mono(i, j);
                    }
                }
            } else {
                assert forall|j: int| 0 <= j < 8 implies (j < f.data(x).versions@.len() <==> #[trigger] has_slot(
                    f.vn(c) - f.vn(this),
                    j,
                    l + 1,
                )) by {
                    assert(f.vn(c) - f.vn(this) == ac);
                    assert(f.data(x) == o.data(x));
                    assert(j < o.data(x).versions@.len() <==> has_slot(o.vn(c) - o.vn(this), j, l));
                    if has_slot(ac, j, l) {
                        assert(has_slot(ac, j, l + 1));
                    }
                    if has_slot(ac, j, l + 1) && !has_slot(ac, j, l) {
                        lemma_parent_unique(ac, j, a, i);
                        assert(o.vn(c) == o.vn(cur));
                        assert(o.slot_reach(this, c) && o.slot_reach(this, cur) && o.resolves(c, x) && o.resolves(
                            cur,
                            h,
                        ));
                        assert(x == h);
                    }
                }
            }
            assert(f.resolves(c, x));
        } else {
            assert(c == version);
            assert(f.resolves(c, xv));
            assert forall|j: int| 0 <= j < 8 implies (j < f.data(xv).versions@.len() <==> #[trigger] has_slot(
                f.vn(c) - f.vn(this),
                j,
                l + 1,
            )) by {
                lemma_p4_positive(j);
            }
        }
    }
    assert forall|c1: int, c2: int, x1: int, x2: int|
        #![trigger f.slot_reach(this, c1), f.slot_reach(this, c2), f.resolves(c1, x1), f.resolves(c2, x2)]
        f.slot_reach(this, c1) && f.slot_reach(this, c2) && f.resolves(c1, x1) && f.resolves(c2, x2) && f.vn(c1)
            == f.vn(c2) implies x1 == x2 by {
        let p1 = choose|p: Seq<int>| f.slot_path(p) && p[0] == this && p.last() == c1;
        let p2 = choose|p: Seq<int>| f.slot_path(p) && p[0] == this && p.last() == c2;
        lemma_pushed_path(o, f, this, l, h, version, xv, p1);
        lemma_pushed_path(o, f, this, l, h, version, xv, p2);
        assert(p1[p1.len() - 1] == c1);
        assert(p2[p2.len() - 1] == c2);
        if o.slot_reach(this, c2) && c1 == version {
            let pp = choose|p: Seq<int>| o.slot_path(p) && p[0] == this && p.last() == c2;
            lemma_canonical_path_bounded(o, this, l, pp);
            assert(pp[pp.len() - 1] == c2);
        } else if o.slot_reach(this, c1) && c2 == version {
            let pp = choose|p: Seq<int>| o.slot_path(p) && p[0] == this && p.last() == c1;
            lemma_canonical_path_bounded(o, this, l, pp);
            assert(pp[pp.len() - 1] == c1);
        } else if c1 == version && c2 == version {
            assert(o.ready_with(o.items@[c1].spec_file_index(), x1));
            assert(o.ready_with(o.items@[c1].spec_file_index(), x2));
        }
    }
}

/// A loaded node with no version slots is a canonical chain whose newest
/// version is itself: the start from which inserting versions one at a
/// time keeps the chain canonical.
pub proof fn lemma_fresh_chain_canonical(c: &HNSWIndexCache, this: int, x: int)
    requires
        c.wf(),
        c.resolves(this, x),
        c.data(x).versions@.len() == 0,
    ensures
        c.canonical(this, 0),
{
    assert forall|p: Seq<int>| c.slot_path(p) && p[0] == this implies p.len() == 1 by {
        if p.len() > 1 {
            let z: int = 0;
            assert(c.slot_step(p[z], p[z + 1]));
            let (r, i) = choose|r: int, i: int|
                c.resolves(p[0], r) && 0 <= i < c.data(r).versions@.len() && p[1] == c.data(r).versions@[i] as int;
            assert(c.ready_with(c.items@[this].spec_file_index(), r));
            assert(c.ready_with(c.items@[this].spec_file_index(), x));
        }
    }
    assert forall|d: int| #[trigger] c.slot_reach(this, d) implies d == this by {
        let p = choose|p: Seq<int>| c.slot_path(p) && p[0] == this && p.last() == d;
        assert(p.len() == 1);
    }
    assert forall|d: int| #[trigger] c.slot_reach(this, d) implies c.canonical_at(this, d, 0) by {
        assert forall|j: int| 0 <= j < 8 implies (j < c.data(x).versions@.len() <==> #[trigger] has_slot(
            c.vn(d) - c.vn(this),
            j,
            0,
        )) by {
            lemma_p4_positive(j);
        }
    }
    assert forall|c1: int, c2: int, x1: int, x2: int|
        #![trigger c.slot_reach(this, c1), c.slot_reach(this, c2), c.resolves(c1, x1), c.resolves(c2, x2)]
        c.slot_reach(this, c1) && c.slot_reach(this, c2) && c.resolves(c1, x1) && c.resolves(c2, x2) && c.vn(c1)
            == c.vn(c2) implies x1 == x2 by {
        assert(c.ready_with(c.items@[this].spec_file_index(), x1));
        assert(c.ready_with(c.items@[this].spec_file_index(), x2));
    }
    assert(c.items@[this].spec_version_number() < 65536);
}

/// In a canonical chain the loaded node `x` of a reached node `c` holds
/// slot `i` exactly when the layout gives it one.
pub proof fn lemma_canonical_slots(c: &HNSWIndexCache, this: int, cur: int, x: int, l: int)
    requires
        c.wf(),
        c.canonical(this, l),
        c.slot_reach(this, cur),
        c.resolves(cur, x),
    ensures
        forall|i: int|
            0 <= i < 8 ==> (i < c.data(x).versions@.len() <==> #[trigger] has_slot(
                c.vn(cur) - c.vn(this),
                i,
                l,
            )),
        c.data(x).versions@.len() <= 8,
{
    assert(c.canonical_at(this, cur, l));
    let y = choose|y: int|
        c.resolves(cur, y) && forall|i: int|
            0 <= i < 8 ==> (i < c.data(y).versions@.len() <==> #[trigger] has_slot(c.vn(cur) - c.vn(this), i, l));
    assert(x == y);
    assert(c.chain_ok(x));
}

/// On the last-slot walk of a canonical chain, a node `a` below the end
/// `l` has its last slot at the largest power of four in `l - a`, and the
/// node at `l` has none.
pub proof fn lemma_canonical_last(len: int, a: int, l: int)
    requires
        0 <= len <= 8,
        0 <= a <= l < 65536,
        a < l ==> digit_room(a, l - a),
        forall|i: int| 0 <= i < 8 ==> (i < len <==> #[trigger] has_slot(a, i, l)),
    ensures
        a == l ==> len == 0,
        a < l ==> len >= 1 && log4_is(l - a, len - 1),
{
    lemma_pow4_values();
    if a == l {
        if len > 0 {
            assert(has_slot(a, 0, l));
            lemma_p4_positive(0);
        }
    } else {
        lemma_log4_exists(l - a);
        let i = choose|i: int| #[trigger] log4_is(l - a, i);
        lemma_digit_room_low(a, l - a, i, 0);
        assert(has_slot(a, i, l));
        if i + 1 < 8 {
            assert(!has_slot(a, i + 1, l));
            if len > i + 1 {
                assert(has_slot(a, i + 1, l));
            }
        }
    }
}

/// A stored neighbor slot does not use the absent-link sentinel.
pub open spec fn slot_loc_ok(s: Option<NeighborRecord>) -> bool {
    match s {
        Some(s) => s.loc != sentinel(),
        None => true,
    }
}

/// `4^i` for a slot index.
pub fn pow4_exec(i: usize) -> (r: u16)
    requires
        i < VERSION_SLOTS,
    ensures
        r as nat == pow4(i as nat),
{
    proof {
        lemma_pow4_values();
    }
    let mut r: u16 = 1;
    let mut k: usize = 0;
    while k < i
        invariant
            k <= i < VERSION_SLOTS,
            r as nat == pow4(k as nat),
            pow4_table(),
        decreases i - k,
    {
        r = r * 4;
        k = k + 1;
    }
    r
}

/// Slot `i` of every loaded node's version chain holds a version exactly
/// `4^i` ahead of the node, and every handle that resolves to that node
/// shares its version number; it holds of every well-formed cache, which
/// every mutation of the cache keeps well formed.
pub proof fn lemma_version_chain_spacing(c: &HNSWIndexCache, h: int, r: int, i: int)
    requires
        c.wf(),
        c.resolves(h, r),
        0 <= i < c.data(r).versions@.len(),
    ensures
        0 <= c.data(r).versions@[i] < c.len(),
        c.vn(c.data(r).versions@[i] as int) - c.vn(h) == pow4(i as nat),
{
    assert(c.chain_ok(r));
}

} // verus!
