//! The tombstone / epoch-check protocol: the per-store replica state and the
//! comparison of an inbound message's stamped epoch against the local
//! authoritative epoch, by which stale messages are rejected and a removed
//! replica recognizes that it must destroy itself. The epoch comparison is
//! the single source of truth; wall-clock time and arrival order play no
//! part.

use vstd::prelude::*;

use crate::epoch::RegionEpoch;
use crate::epoch::epoch_ahead;
use crate::epoch::epoch_le;
use crate::epoch::epoch_stale;
use crate::epoch::is_epoch_ahead;
use crate::epoch::is_epoch_stale;
use crate::meta::ConfChangeType;
use crate::meta::Peer;
use crate::meta::Region;
use crate::meta::RegionView;

verus! {

/// The epoch-bearing fields of an inbound replication message or client
/// request: who it is for, who sent it, and the sender's belief of the
/// region's epoch.
#[derive(Clone, Copy, Debug, PartialEq, Eq, Structural)]
pub struct RegionMessage {
    pub region_id: u64,
    pub from_peer: Peer,
    pub to_peer: Peer,
    pub region_epoch: RegionEpoch,
}

/// The semantic answer of the epoch check. `RegionNotFound` is the explicit
/// marker a stale or tombstoned peer answers with; `StaleEpoch` rejects an
/// old message for a live replica; `NeedRefresh` asks for an out-of-band
/// authoritative lookup before re-evaluation.
#[derive(Clone, Copy, Debug, PartialEq, Eq, Structural)]
pub enum CheckOutcome {
    Accept,
    RegionNotFound,
    StaleEpoch,
    NeedRefresh,
}

/// One key/value pair of replicated user data.
#[derive(Debug)]
pub struct KvPair {
    pub key: Vec<u8>,
    pub value: Vec<u8>,
}

/// Mathematical model of a [`KvPair`].
#[verifier::ext_equal]
pub struct KvView {
    pub key: Seq<u8>,
    pub value: Seq<u8>,
}

impl View for KvPair {
    type V = KvView;

    open spec fn view(&self) -> KvView {
        KvView { key: self.key@, value: self.value@ }
    }
}

/// One locally hosted replica: the cached authoritative metadata of its
/// region, and the data applied to it. Destroying the replica destroys both.
#[derive(Debug)]
pub struct Replica {
    pub region: Region,
    pub data: Vec<KvPair>,
}

/// Mathematical model of a [`Replica`].
#[verifier::ext_equal]
pub struct ReplicaView {
    pub region: RegionView,
    pub data: Seq<KvView>,
}

impl View for Replica {
    type V = ReplicaView;

    open spec fn view(&self) -> ReplicaView {
        ReplicaView { region: self.region@, data: self.data@.map_values(|p: KvPair| p@) }
    }
}

/// The replica-relevant state of one store: which regions it hosts, and
/// which region ids it knows to be tombstoned there. A tombstoned id is
/// rejected without re-deriving the decision, until an explicit re-bootstrap.
#[derive(Debug)]
pub struct StoreState {
    pub store_id: u64,
    pub replicas: Vec<Replica>,
    pub tombstones: Vec<u64>,
}

/// Mathematical model of a [`StoreState`].
#[verifier::ext_equal]
pub struct StoreStateView {
    pub store_id: u64,
    pub replicas: Seq<ReplicaView>,
    pub tombstones: Seq<u64>,
}

impl View for StoreState {
    type V = StoreStateView;

    open spec fn view(&self) -> StoreStateView {
        StoreStateView {
            store_id: self.store_id,
            replicas: self.replicas@.map_values(|r: Replica| r@),
            tombstones: self.tombstones@,
        }
    }
}

impl StoreStateView {
    /// Region ids are hosted at most once, every cached region is well
    /// formed, and no hosted region is also tombstoned.
    pub open spec fn wf(self) -> bool {
        &&& forall|i: int, j: int|
            0 <= i < j < self.replicas.len() ==> #[trigger] self.replicas[i].region.id
                != #[trigger] self.replicas[j].region.id
        &&& forall|i: int| 0 <= i < self.replicas.len() ==> (#[trigger] self.replicas[i]).region.wf()
        &&& forall|i: int|
            0 <= i < self.replicas.len() ==> !self.tombstones.contains(
                (#[trigger] self.replicas[i]).region.id,
            )
    }

    /// This store hosts a replica of region `id`.
    pub open spec fn has_replica(self, id: u64) -> bool {
        exists|i: int| 0 <= i < self.replicas.len() && (#[trigger] self.replicas[i]).region.id == id
    }

    /// The slot of the replica of region `id`.
    pub open spec fn replica_idx(self, id: u64) -> int {
        choose|i: int| 0 <= i < self.replicas.len() && (#[trigger] self.replicas[i]).region.id == id
    }

    /// The locally cached authoritative metadata of region `id`.
    pub open spec fn local_region(self, id: u64) -> RegionView {
        self.replicas[self.replica_idx(id)].region
    }
}

/// The answer the epoch check gives for message `m` in state `s`:
/// - a tombstoned or unknown region id is answered `RegionNotFound` without
///   creating any state;
/// - a message addressed to a peer of this store, claiming a `conf_ver`
///   from before a membership change, while the cached membership itself
///   places no peer of the region on this store any more, proves this
///   store's own peer was removed: the target is tombstoned, `RegionNotFound`;
/// - a message with a strictly older epoch is rejected as `StaleEpoch`;
/// - a message strictly ahead of local knowledge asks for a refresh;
/// - otherwise the message is accepted.
pub open spec fn check_decision(s: StoreStateView, m: RegionMessage) -> CheckOutcome {
    if s.tombstones.contains(m.region_id) {
        CheckOutcome::RegionNotFound
    } else if !s.has_replica(m.region_id) {
        CheckOutcome::RegionNotFound
    } else {
        let local = s.local_region(m.region_id);
        if m.region_epoch.conf_ver < local.epoch.conf_ver && m.to_peer.store_id == s.store_id
            && !local.has_peer_on_store(s.store_id) {
            CheckOutcome::RegionNotFound
        } else if epoch_stale(m.region_epoch, local.epoch) {
            CheckOutcome::StaleEpoch
        } else if epoch_ahead(m.region_epoch, local.epoch) {
            CheckOutcome::NeedRefresh
        } else {
            CheckOutcome::Accept
        }
    }
}

/// Whether checking `m` in `s` detects for the first time that this store's
/// own peer was removed: a live replica whose cached membership places no
/// peer of the region on this store any more, and a message addressed to a
/// peer of this very store with a claimed `conf_ver` from before that
/// membership change. A message to a merely unrecognized peer id, while this
/// store is still a member, is no such proof and destroys nothing.
pub open spec fn detects_tombstone(s: StoreStateView, m: RegionMessage) -> bool {
    &&& !s.tombstones.contains(m.region_id)
    &&& s.has_replica(m.region_id)
    &&& m.region_epoch.conf_ver < s.local_region(m.region_id).epoch.conf_ver
    &&& m.to_peer.store_id == s.store_id
    &&& !s.local_region(m.region_id).has_peer_on_store(s.store_id)
}

/// The state after checking `m` in `s`: exactly in the tombstone-detection
/// case the replica is destroyed (metadata and data) and the id is
/// remembered as tombstoned; in every other case the state is untouched.
pub open spec fn check_next(s: StoreStateView, m: RegionMessage) -> StoreStateView {
    if detects_tombstone(s, m) {
        StoreStateView {
            store_id: s.store_id,
            replicas: s.replicas.remove(s.replica_idx(m.region_id)),
            tombstones: s.tombstones.push(m.region_id),
        }
    } else {
        s
    }
}

/// `s` with every occurrence of `id` removed, order otherwise kept.
pub open spec fn ids_without(s: Seq<u64>, id: u64) -> Seq<u64>
    decreases s.len(),
{
    if s.len() == 0 {
        Seq::empty()
    } else {
        let r = ids_without(s.drop_last(), id);
        if s.last() == id {
            r
        } else {
            r.push(s.last())
        }
    }
}

/// What removal keeps: everything but `id`, nothing else.
pub proof fn lemma_ids_without(s: Seq<u64>, id: u64)
    ensures
        !ids_without(s, id).contains(id),
        forall|q: u64| q != id ==> ids_without(s, id).contains(q) == s.contains(q),
    decreases s.len(),
{
    if s.len() > 0 {
        lemma_ids_without(s.drop_last(), id);
        let pw = ids_without(s, id);
        let r = ids_without(s.drop_last(), id);
        assert forall|q: u64| q != id implies pw.contains(q) == s.contains(q) by {
            if s.contains(q) {
                let i = choose|i: int| 0 <= i < s.len() && s[i] == q;
                if i < s.len() - 1 {
                    assert(s.drop_last()[i] == q);
                    assert(s.drop_last().contains(q));
                    let k = choose|k: int| 0 <= k < r.len() && r[k] == q;
                    assert(pw[k] == q);
                    assert(pw.contains(q));
                } else {
                    assert(s.last() == q);
                    assert(pw[pw.len() - 1] == q);
                    assert(pw.contains(q));
                }
            }
            if pw.contains(q) {
                let i = choose|i: int| 0 <= i < pw.len() && pw[i] == q;
                if s.last() != id && i == pw.len() - 1 {
                    assert(s[s.len() - 1] == q);
                    assert(s.contains(q));
                } else {
                    assert(r[i] == q);
                    assert(r.contains(q));
                    assert(s.drop_last().contains(q));
                    let j = choose|j: int| 0 <= j < s.len() - 1 && s.drop_last()[j] == q;
                    assert(s[j] == q);
                    assert(s.contains(q));
                }
            }
        }
    }
}

impl StoreState {
    /// A store that hosts nothing yet.
    pub fn new(store_id: u64) -> (r: StoreState)
        ensures
            r@ == (StoreStateView {
                store_id,
                replicas: Seq::empty(),
                tombstones: Seq::empty(),
            }),
            r@.wf(),
    {
        let r = StoreState { store_id, replicas: Vec::new(), tombstones: Vec::new() };
        proof {
            assert(r@.replicas =~= Seq::<ReplicaView>::empty());
        }
        r
    }

    /// Whether region `id` is known to be tombstoned on this store.
    pub fn contains_tombstone(&self, id: u64) -> (r: bool)
        ensures
            r == self@.tombstones.contains(id),
    {
        let n = self.tombstones.len();
        let mut i: usize = 0;
        while i < n
            invariant
                i <= n,
                n == self.tombstones.len(),
                forall|j: int| 0 <= j < i ==> self.tombstones[j] != id,
            decreases n - i,
        {
            if self.tombstones[i] == id {
                return true;
            }
            i = i + 1;
        }
        false
    }

    /// The slot of this store's replica of region `id`, if it hosts one.
    pub fn find_replica(&self, id: u64) -> (r: Option<usize>)
        ensures
            match r {
                Some(i) => i < self@.replicas.len() && self@.replicas[i as int].region.id == id,
                None => !self@.has_replica(id),
            },
    {
        let n = self.replicas.len();
        let mut i: usize = 0;
        while i < n
            invariant
                i <= n,
                n == self.replicas.len(),
                forall|j: int| 0 <= j < i ==> (#[trigger] self@.replicas[j]).region.id != id,
            decreases n - i,
        {
            if self.replicas[i].region.id == id {
                return Some(i);
            }
            i = i + 1;
        }
        None
    }

    /// Evaluate an inbound message against local authoritative state, as
    /// [`check_decision`] says, destroying the local replica exactly when
    /// the message proves its target peer was removed, as [`check_next`]
    /// says. Runs inline, waits on nothing, and touches no other state.
    pub fn check_message(&mut self, msg: &RegionMessage) -> (out: CheckOutcome)
        requires
            old(self)@.wf(),
        ensures
            out == check_decision(old(self)@, *msg),
            final (self)@ == check_next(old(self)@, *msg),
            final (self)@.wf(),
    {
        let ghost pre = self@;
        if self.contains_tombstone(msg.region_id) {
            return CheckOutcome::RegionNotFound;
        }
        let slot = match self.find_replica(msg.region_id) {
            None => {
                return CheckOutcome::RegionNotFound;
            },
            Some(i) => i,
        };
        proof {
            assert(pre.has_replica(msg.region_id));
            lemma_replica_idx(pre, msg.region_id, slot as int);
        }
        let local_epoch = self.replicas[slot].region.epoch;
        let own_peer = self.replicas[slot].region.find_peer(self.store_id);
        proof {
            if let Some(p) = own_peer {
                let lr = pre.local_region(msg.region_id);
                assert(lr.peers.contains(p));
                let k = choose|k: int| 0 <= k < lr.peers.len() && lr.peers[k] == p;
                assert(lr.peers[k].store_id == self.store_id);
                assert(lr.has_peer_on_store(self.store_id));
            }
        }
        if msg.region_epoch.conf_ver < local_epoch.conf_ver && msg.to_peer.store_id
            == self.store_id && own_peer.is_none() {
            // The cached membership shows this store's own peer was removed
            // by a change newer than the message: destroy the local replica
            // and remember the id.
            self.replicas.remove(slot);
            self.tombstones.push(msg.region_id);
            proof {
                assert(self@.replicas =~= pre.replicas.remove(slot as int));
                assert(self@.tombstones =~= pre.tombstones.push(msg.region_id));
                assert(self@ =~= check_next(pre, *msg));
                lemma_wf_after_destroy(pre, msg.region_id, slot as int);
            }
            return CheckOutcome::RegionNotFound;
        }
        let out = if is_epoch_stale(&msg.region_epoch, &local_epoch) {
            CheckOutcome::StaleEpoch
        } else if is_epoch_ahead(&msg.region_epoch, &local_epoch) {
            CheckOutcome::NeedRefresh
        } else {
            CheckOutcome::Accept
        };
        out
    }

    /// Explicitly (re-)bootstrap a replica of `region` on this store, with
    /// no data yet. This is the one way a tombstone is forgotten.
    pub fn install_region(&mut self, region: Region)
        requires
            old(self)@.wf(),
            region@.wf(),
            !old(self)@.has_replica(region@.id),
        ensures
            final (self)@.store_id == old(self)@.store_id,
            final (self)@.replicas == old(self)@.replicas.push(
                ReplicaView { region: region@, data: Seq::empty() },
            ),
            final (self)@.tombstones == ids_without(old(self)@.tombstones, region@.id),
            final (self)@.wf(),
    {
        let ghost pre = self@;
        let ghost rid = region@.id;
        let n = self.tombstones.len();
        let mut kept: Vec<u64> = Vec::new();
        let mut i: usize = 0;
        while i < n
            invariant
                i <= n,
                n == self.tombstones.len(),
                self@.tombstones == pre.tombstones,
                rid == region@.id,
                kept@ == ids_without(pre.tombstones.take(i as int), rid),
            decreases n - i,
        {
            let t = self.tombstones[i];
            proof {
                assert(pre.tombstones.take(i + 1).drop_last() =~= pre.tombstones.take(i as int));
                assert(pre.tombstones.take(i + 1).last() == pre.tombstones[i as int]);
            }
            if t != region.id {
                kept.push(t);
            }
            i = i + 1;
        }
        proof {
            assert(pre.tombstones.take(n as int) =~= pre.tombstones);
        }
        self.tombstones = kept;
        self.replicas.push(Replica { region, data: Vec::new() });
        proof {
            lemma_ids_without(pre.tombstones, rid);
            assert(self@.replicas =~~= pre.replicas.push(
                ReplicaView { region: region@, data: Seq::empty() },
            ));
            let s = self@;
            assert forall|a: int, b: int| 0 <= a < b < s.replicas.len() implies #[trigger] s
                .replicas[a].region.id != #[trigger] s.replicas[b].region.id by {
                if b == s.replicas.len() - 1 {
                    assert(s.replicas[a] == pre.replicas[a]);
                    assert(pre.has_replica(rid) == false);
                    assert(pre.replicas[a].region.id != rid);
                } else {
                    assert(s.replicas[a] == pre.replicas[a] && s.replicas[b] == pre.replicas[b]);
                }
            }
            assert forall|a: int| 0 <= a < s.replicas.len() implies !s.tombstones.contains(
                (#[trigger] s.replicas[a]).region.id,
            ) by {
                if a == s.replicas.len() - 1 {
                } else {
                    assert(s.replicas[a] == pre.replicas[a]);
                    assert(!pre.tombstones.contains(pre.replicas[a].region.id));
                }
            }
        }
    }

    /// The "region leader" style status payload operational tooling asks
    /// for: the cached region of a live replica, or nothing — the explicit
    /// region-not-found answer — for a tombstoned or unknown id.
    pub fn region_status(&self, region_id: u64) -> (r: Option<Region>)
        ensures
            r is Some <==> (!self@.tombstones.contains(region_id) && self@.has_replica(region_id)),
            r matches Some(reg) ==> self@.wf() ==> reg@ == self@.local_region(region_id),
    {
        if self.contains_tombstone(region_id) {
            return None;
        }
        match self.find_replica(region_id) {
            None => None,
            Some(i) => {
                let reg = self.replicas[i].region.clone();
                proof {
                    if self@.wf() {
                        lemma_replica_idx(self@, region_id, i as int);
                    }
                }
                Some(reg)
            },
        }
    }
}

/// In a well-formed state, any slot holding region `id` is the slot
/// [`StoreStateView::replica_idx`] names.
pub proof fn lemma_replica_idx(s: StoreStateView, id: u64, i: int)
    requires
        s.wf(),
        0 <= i < s.replicas.len(),
        s.replicas[i].region.id == id,
    ensures
        s.has_replica(id),
        s.replica_idx(id) == i,
        s.local_region(id) == s.replicas[i].region,
{
    assert(s.has_replica(id));
    let k = s.replica_idx(id);
    if k != i {
        if k < i {
            assert(s.replicas[k].region.id != s.replicas[i].region.id);
        } else {
            assert(s.replicas[i].region.id != s.replicas[k].region.id);
        }
    }
}

/// Destroying the replica of `id` and remembering the id keeps the state
/// well formed.
proof fn lemma_wf_after_destroy(s: StoreStateView, id: u64, i: int)
    requires
        s.wf(),
        0 <= i < s.replicas.len(),
        s.replicas[i].region.id == id,
        !s.tombstones.contains(id),
    ensures
        (StoreStateView {
            store_id: s.store_id,
            replicas: s.replicas.remove(i),
            tombstones: s.tombstones.push(id),
        }).wf(),
{
    let rs = s.replicas.remove(i);
    let ts = s.tombstones.push(id);
    assert forall|a: int, b: int| 0 <= a < b < rs.len() implies #[trigger] rs[a].region.id
        != #[trigger] rs[b].region.id by {
        let a0 = if a < i {
            a
        } else {
            a + 1
        };
        let b0 = if b < i {
            b
        } else {
            b + 1
        };
        assert(rs[a] == s.replicas[a0] && rs[b] == s.replicas[b0]);
        assert(s.replicas[a0].region.id != s.replicas[b0].region.id);
    }
    assert forall|a: int| 0 <= a < rs.len() implies !ts.contains(
        (#[trigger] rs[a]).region.id,
    ) by {
        let a0 = if a < i {
            a
        } else {
            a + 1
        };
        assert(rs[a] == s.replicas[a0]);
        assert(!s.tombstones.contains(s.replicas[a0].region.id));
        if a0 < i {
            assert(s.replicas[a0].region.id != s.replicas[i].region.id);
        } else {
            assert(s.replicas[i].region.id != s.replicas[a0].region.id);
        }
        assert forall|j: int| 0 <= j < ts.len() implies ts[j] != rs[a].region.id by {
            if j < ts.len() - 1 {
                assert(ts[j] == s.tombstones[j]);
                assert(!s.tombstones.contains(rs[a].region.id));
            }
        }
    }
    assert forall|a: int| 0 <= a < rs.len() implies (#[trigger] rs[a]).region.wf() by {
        let a0 = if a < i {
            a
        } else {
            a + 1
        };
        assert(rs[a] == s.replicas[a0]);
    }
}

/// The value of `k` in replicated data `d`, the latest write winning.
pub open spec fn data_lookup(d: Seq<KvView>, k: Seq<u8>) -> Option<Seq<u8>>
    decreases d.len(),
{
    if d.len() == 0 {
        None
    } else if d.last().key == k {
        Some(d.last().value)
    } else {
        data_lookup(d.drop_last(), k)
    }
}

/// The state after a Raft-ordered write of `kv` to region `id` reaches a
/// store: applied exactly where a live replica of the region is hosted; a
/// store that hosts none — in particular one whose replica was destroyed —
/// is untouched, so no data written after removal becomes visible there.
pub open spec fn write_next(s: StoreStateView, id: u64, kv: KvView) -> StoreStateView {
    if !s.tombstones.contains(id) && s.has_replica(id) {
        let i = s.replica_idx(id);
        StoreStateView {
            store_id: s.store_id,
            replicas: s.replicas.update(
                i,
                ReplicaView { region: s.replicas[i].region, data: s.replicas[i].data.push(kv) },
            ),
            tombstones: s.tombstones,
        }
    } else {
        s
    }
}

/// Whether two byte strings hold the same bytes.
pub fn bytes_eq(a: &Vec<u8>, b: &Vec<u8>) -> (r: bool)
    ensures
        r == (a@ == b@),
{
    let n = a.len();
    if n != b.len() {
        return false;
    }
    let mut i: usize = 0;
    while i < n
        invariant
            i <= n,
            n == a.len(),
            n == b.len(),
            forall|j: int| 0 <= j < i ==> a@[j] == b@[j],
        decreases n - i,
    {
        if a[i] != b[i] {
            return false;
        }
        i = i + 1;
    }
    proof {
        assert(a@ =~= b@);
    }
    true
}

impl StoreState {
    /// Apply a Raft-ordered write to this store, as [`write_next`] says: it
    /// lands only on a live replica of the named region.
    pub fn apply_write(&mut self, region_id: u64, key: Vec<u8>, value: Vec<u8>)
        requires
            old(self)@.wf(),
        ensures
            final (self)@ == write_next(old(self)@, region_id, KvView { key: key@, value: value@ }),
            final (self)@.wf(),
    {
        let ghost pre = self@;
        if self.contains_tombstone(region_id) {
            return ;
        }
        let slot = match self.find_replica(region_id) {
            None => {
                return ;
            },
            Some(i) => i,
        };
        proof {
            lemma_replica_idx(pre, region_id, slot as int);
        }
        let mut rep = self.replicas.remove(slot);
        rep.data.push(KvPair { key, value });
        self.replicas.insert(slot, rep);
        proof {
            let kv = KvView { key: key@, value: value@ };
            assert(self@.replicas =~~= pre.replicas.update(
                slot as int,
                ReplicaView {
                    region: pre.replicas[slot as int].region,
                    data: pre.replicas[slot as int].data.push(kv),
                },
            ));
            assert(final (self)@ =~~= write_next(pre, region_id, kv));
            let s = self@;
            assert forall|a: int, b: int| 0 <= a < b < s.replicas.len() implies #[trigger] s
                .replicas[a].region.id != #[trigger] s.replicas[b].region.id by {
                assert(s.replicas[a].region == pre.replicas[a].region);
                assert(s.replicas[b].region == pre.replicas[b].region);
            }
            assert forall|a: int| 0 <= a < s.replicas.len() implies (
            #[trigger] s.replicas[a]).region.wf() && !s.tombstones.contains(
                s.replicas[a].region.id,
            ) by {
                assert(s.replicas[a].region == pre.replicas[a].region);
            }
        }
    }

    /// Read `key` from this store's replica of the named region, the latest
    /// write winning; nothing is visible for a region this store does not
    /// host a live replica of.
    pub fn get(&self, region_id: u64, key: &Vec<u8>) -> (r: Option<Vec<u8>>)
        requires
            self@.wf(),
        ensures
            match r {
                Some(v) => self@.has_replica(region_id) && data_lookup(
                    self@.local_region_data(region_id),
                    key@,
                ) == Some(v@),
                None => !self@.has_replica(region_id) || data_lookup(
                    self@.local_region_data(region_id),
                    key@,
                ) is None,
            },
    {
        let slot = match self.find_replica(region_id) {
            None => {
                return None;
            },
            Some(i) => i,
        };
        proof {
            lemma_replica_idx(self@, region_id, slot as int);
        }
        let ghost dv = self@.local_region_data(region_id);
        let n = self.replicas[slot].data.len();
        let mut i: usize = n;
        proof {
            assert(dv.len() == n);
            assert(dv.take(n as int) =~= dv);
        }
        while i > 0
            invariant
                i <= n,
                slot < self@.replicas.len(),
                self@.replicas[slot as int].region.id == region_id,
                self@.wf(),
                dv == self@.local_region_data(region_id),
                n == self.replicas[slot as int].data.len(),
                dv.len() == n,
                data_lookup(dv, key@) == data_lookup(dv.take(i as int), key@),
            decreases i,
        {
            i = i - 1;
            proof {
                assert(dv.take(i + 1).drop_last() =~= dv.take(i as int));
                assert(dv.take(i + 1).last() == dv[i as int]);
                assert(dv[i as int] == self.replicas[slot as int].data@.map_values(
                    |p: KvPair| p@,
                )[i as int]);
            }
            if bytes_eq(&self.replicas[slot].data[i].key, key) {
                let v = crate::meta::copy_bytes(&self.replicas[slot].data[i].value);
                proof {
                    assert(data_lookup(dv.take(i + 1), key@) == Some(dv[i as int].value));
                }
                return Some(v);
            }
        }
        proof {
            assert(dv.take(0) =~= Seq::<KvView>::empty());
        }
        None
    }
}

impl StoreStateView {
    /// The replicated data this store holds for region `id`.
    pub open spec fn local_region_data(self, id: u64) -> Seq<KvView> {
        self.replicas[self.replica_idx(id)].data
    }
}

/// The region metadata after a membership change adding `p`.
pub open spec fn region_add(r: RegionView, p: Peer) -> RegionView {
    RegionView {
        peers: r.peers.push(p),
        epoch: RegionEpoch { version: r.epoch.version, conf_ver: (r.epoch.conf_ver + 1) as u64 },
        ..r
    }
}

/// The region metadata after a membership change removing `p`.
pub open spec fn region_remove(r: RegionView, p: Peer) -> RegionView {
    RegionView {
        peers: crate::meta::peers_without(r.peers, p),
        epoch: RegionEpoch { version: r.epoch.version, conf_ver: (r.epoch.conf_ver + 1) as u64 },
        ..r
    }
}

/// A committed membership change can be applied at a store hosting the
/// region: the epoch can still be bumped, an added peer collides with no
/// existing one, a removed peer is present.
pub open spec fn conf_valid(s: StoreStateView, id: u64, ct: ConfChangeType, p: Peer) -> bool {
    s.has_replica(id) ==> {
        let local = s.local_region(id);
        &&& local.epoch.conf_ver < u64::MAX
        &&& match ct {
            ConfChangeType::AddNode | ConfChangeType::AddLearnerNode => local.can_add(p),
            ConfChangeType::RemoveNode => local.peers.contains(p),
        }
    }
}

/// The state after a store applies a committed membership change: the cached
/// region is updated with the bumped `conf_ver`; if the change removes this
/// store's own peer, the replica is destroyed and the region id is
/// remembered as tombstoned. A store not hosting the region is untouched.
pub open spec fn conf_next(s: StoreStateView, id: u64, ct: ConfChangeType, p: Peer) -> StoreStateView {
    if !s.has_replica(id) {
        s
    } else {
        let i = s.replica_idx(id);
        let local = s.replicas[i].region;
        match ct {
            ConfChangeType::AddNode | ConfChangeType::AddLearnerNode => StoreStateView {
                store_id: s.store_id,
                replicas: s.replicas.update(
                    i,
                    ReplicaView { region: region_add(local, p), data: s.replicas[i].data },
                ),
                tombstones: s.tombstones,
            },
            ConfChangeType::RemoveNode => {
                if p.store_id == s.store_id {
                    StoreStateView {
                        store_id: s.store_id,
                        replicas: s.replicas.remove(i),
                        tombstones: s.tombstones.push(id),
                    }
                } else {
                    StoreStateView {
                        store_id: s.store_id,
                        replicas: s.replicas.update(
                            i,
                            ReplicaView { region: region_remove(local, p), data: s.replicas[i].data },
                        ),
                        tombstones: s.tombstones,
                    }
                }
            },
        }
    }
}

impl StoreState {
    /// Apply a committed, Raft-ordered membership change at this store, as
    /// [`conf_next`] says. A change that removes this store's own peer
    /// retires the replica: its metadata and data are destroyed and the
    /// region id is tombstoned. The cached epoch never decreases. A change
    /// that cannot apply to the cached region (a duplicate peer, a removal
    /// of an absent peer) is an invariant violation: it is excluded by
    /// precondition rather than silently continued.
    pub fn apply_conf_change(&mut self, region_id: u64, change_type: ConfChangeType, peer: Peer)
        requires
            old(self)@.wf(),
            conf_valid(old(self)@, region_id, change_type, peer),
        ensures
            final (self)@ == conf_next(old(self)@, region_id, change_type, peer),
            final (self)@.wf(),
            old(self)@.has_replica(region_id) && final (self)@.has_replica(region_id)
                ==> epoch_le(
                old(self)@.local_region(region_id).epoch,
                final (self)@.local_region(region_id).epoch,
            ),
    {
        let ghost pre = self@;
        let slot = match self.find_replica(region_id) {
            None => {
                return ;
            },
            Some(i) => i,
        };
        proof {
            lemma_replica_idx(pre, region_id, slot as int);
        }
        match change_type {
            ConfChangeType::AddNode | ConfChangeType::AddLearnerNode => {
                let mut rep = self.replicas.remove(slot);
                rep.region.add_peer(peer);
                self.replicas.insert(slot, rep);
                proof {
                    lemma_conf_update_ok(pre, region_id, slot as int, self@);
                }
            },
            ConfChangeType::RemoveNode => {
                if peer.store_id == self.store_id {
                    // this store's own peer is removed: destroy the replica
                    self.replicas.remove(slot);
                    self.tombstones.push(region_id);
                    proof {
                        assert(self@.replicas =~~= pre.replicas.remove(slot as int));
                        assert(self@.tombstones =~= pre.tombstones.push(region_id));
                        assert(self@ =~~= conf_next(pre, region_id, change_type, peer));
                        lemma_wf_after_destroy(pre, region_id, slot as int);
                        assert(!self@.has_replica(region_id)) by {
                            lemma_no_replica_after_remove(pre, region_id, slot as int);
                        }
                    }
                } else {
                    let mut rep = self.replicas.remove(slot);
                    rep.region.remove_peer(peer);
                    self.replicas.insert(slot, rep);
                    proof {
                        lemma_conf_update_ok(pre, region_id, slot as int, self@);
                    }
                }
            },
        }
    }

    /// Fold an authoritative region lookup back into this store's cache, as
    /// [`refresh_next`] says: local knowledge only moves forward, and a
    /// refresh that shows this store hosts no peer any more retires the
    /// replica. The cached epoch never decreases.
    pub fn refresh_region(&mut self, authoritative: &Region)
        requires
            old(self)@.wf(),
            authoritative@.wf(),
        ensures
            final (self)@ == refresh_next(old(self)@, authoritative@),
            final (self)@.wf(),
            old(self)@.has_replica(authoritative@.id) && final (self)@.has_replica(
                authoritative@.id,
            ) ==> epoch_le(
                old(self)@.local_region(authoritative@.id).epoch,
                final (self)@.local_region(authoritative@.id).epoch,
            ),
    {
        let ghost pre = self@;
        let ghost rid = authoritative@.id;
        let slot = match self.find_replica(authoritative.id) {
            None => {
                return ;
            },
            Some(i) => i,
        };
        proof {
            lemma_replica_idx(pre, rid, slot as int);
        }
        if is_epoch_stale(&authoritative.epoch, &self.replicas[slot].region.epoch) {
            // authoritative state is never older than a cache built from it;
            // the guard keeps local knowledge monotonic regardless
            return ;
        }
        match authoritative.find_peer(self.store_id) {
            Some(_) => {
                let mut rep = self.replicas.remove(slot);
                rep.region = authoritative.clone();
                self.replicas.insert(slot, rep);
                proof {
                    assert(self@.replicas =~~= pre.replicas.update(
                        slot as int,
                        ReplicaView {
                            region: authoritative@,
                            data: pre.replicas[slot as int].data,
                        },
                    ));
                    assert(self@ =~~= refresh_next(pre, authoritative@));
                    let s = self@;
                    assert forall|a: int, b: int| 0 <= a < b < s.replicas.len() implies #[trigger] s
                        .replicas[a].region.id != #[trigger] s.replicas[b].region.id by {
                        assert(s.replicas[a].region.id == pre.replicas[a].region.id);
                        assert(s.replicas[b].region.id == pre.replicas[b].region.id);
                    }
                    assert forall|a: int| 0 <= a < s.replicas.len() implies (
                    #[trigger] s.replicas[a]).region.wf() && !s.tombstones.contains(
                        s.replicas[a].region.id,
                    ) by {
                        assert(s.replicas[a].region.id == pre.replicas[a].region.id);
                        if a != slot as int {
                            assert(s.replicas[a] == pre.replicas[a]);
                        }
                    }
                    lemma_replica_idx(self@, rid, slot as int);
                }
            },
            None => {
                // the authoritative membership no longer places a peer of
                // this region here: this replica was removed; retire it
                self.replicas.remove(slot);
                self.tombstones.push(authoritative.id);
                proof {
                    assert(self@.replicas =~~= pre.replicas.remove(slot as int));
                    assert(self@.tombstones =~= pre.tombstones.push(rid));
                    assert(self@ =~~= refresh_next(pre, authoritative@));
                    lemma_wf_after_destroy(pre, rid, slot as int);
                    lemma_no_replica_after_remove(pre, rid, slot as int);
                }
            },
        }
    }
}

/// The state after an authoritative lookup of `rv.id` is folded into a
/// store's cache: nothing changes where no replica is hosted or where the
/// lookup is older than the cache; a lookup that no longer places a peer of
/// the region on this store retires the replica; otherwise the cached
/// metadata becomes the authoritative one.
pub open spec fn refresh_next(s: StoreStateView, rv: RegionView) -> StoreStateView {
    if !s.has_replica(rv.id) {
        s
    } else {
        let i = s.replica_idx(rv.id);
        let local = s.replicas[i].region;
        if epoch_stale(rv.epoch, local.epoch) {
            s
        } else if !rv.has_peer_on_store(s.store_id) {
            StoreStateView {
                store_id: s.store_id,
                replicas: s.replicas.remove(i),
                tombstones: s.tombstones.push(rv.id),
            }
        } else {
            StoreStateView {
                store_id: s.store_id,
                replicas: s.replicas.update(
                    i,
                    ReplicaView { region: rv, data: s.replicas[i].data },
                ),
                tombstones: s.tombstones,
            }
        }
    }
}

/// After removing the only slot of `id`, no replica of `id` remains.
proof fn lemma_no_replica_after_remove(s: StoreStateView, id: u64, i: int)
    requires
        s.wf(),
        0 <= i < s.replicas.len(),
        s.replicas[i].region.id == id,
    ensures
        forall|j: int|
            0 <= j < s.replicas.remove(i).len() ==> (#[trigger] s.replicas.remove(
                i,
            )[j]).region.id != id,
{
    let rs = s.replicas.remove(i);
    assert forall|j: int| 0 <= j < rs.len() implies (#[trigger] rs[j]).region.id != id by {
        let j0 = if j < i {
            j
        } else {
            j + 1
        };
        assert(rs[j] == s.replicas[j0]);
        if j0 < i {
            assert(s.replicas[j0].region.id != s.replicas[i].region.id);
        } else {
            assert(s.replicas[i].region.id != s.replicas[j0].region.id);
        }
    }
}

/// Updating slot `i` (hosting `id`) in place with a well-formed region of
/// the same id keeps the state well formed and equal to the update.
proof fn lemma_conf_update_ok(pre: StoreStateView, id: u64, i: int, post: StoreStateView)
    requires
        pre.wf(),
        0 <= i < pre.replicas.len(),
        pre.replicas[i].region.id == id,
        post.store_id == pre.store_id,
        post.tombstones == pre.tombstones,
        post.replicas.len() == pre.replicas.len(),
        forall|a: int| 0 <= a < pre.replicas.len() && a != i ==> post.replicas[a] == pre.replicas[a],
        post.replicas[i].region.id == id,
        post.replicas[i].region.wf(),
    ensures
        post.wf(),
        post.has_replica(id),
        post.replica_idx(id) == i,
        post.local_region(id) == post.replicas[i].region,
{
    assert forall|a: int, b: int| 0 <= a < b < post.replicas.len() implies #[trigger] post
        .replicas[a].region.id != #[trigger] post.replicas[b].region.id by {
        assert(post.replicas[a].region.id == pre.replicas[a].region.id);
        assert(post.replicas[b].region.id == pre.replicas[b].region.id);
    }
    assert forall|a: int| 0 <= a < post.replicas.len() implies (
    #[trigger] post.replicas[a]).region.wf() && !post.tombstones.contains(
        post.replicas[a].region.id,
    ) by {
        assert(post.replicas[a].region.id == pre.replicas[a].region.id);
        if a != i {
            assert(post.replicas[a] == pre.replicas[a]);
        }
    }
    lemma_replica_idx(post, id, i);
}

/// Tombstone finality, remembered: in any state that knows a region id to be
/// tombstoned, every message for that id — whatever its sender, target or
/// stamped epoch — is answered `RegionNotFound` without touching any state,
/// and no write to that region lands.
pub proof fn lemma_tombstone_finality(s: StoreStateView, m: RegionMessage)
    requires
        s.tombstones.contains(m.region_id),
    ensures
        check_decision(s, m) == CheckOutcome::RegionNotFound,
        check_next(s, m) == s,
        forall|kv: KvView| write_next(s, m.region_id, kv) == s,
{
}

/// Tombstone finality, established: once a check detects that this store's
/// own peer was removed by a `conf_ver`-bumping membership change, the
/// answer is `RegionNotFound`, the replica is gone, and from the resulting
/// state every further message for that region id is answered
/// `RegionNotFound` without change, and no write to it lands.
pub proof fn lemma_removed_peer_tombstoned(s: StoreStateView, m: RegionMessage)
    requires
        s.wf(),
        detects_tombstone(s, m),
    ensures
        check_decision(s, m) == CheckOutcome::RegionNotFound,
        check_next(s, m).tombstones.contains(m.region_id),
        !check_next(s, m).has_replica(m.region_id),
        forall|m2: RegionMessage|
            m2.region_id == m.region_id ==> #[trigger] check_decision(check_next(s, m), m2)
                == CheckOutcome::RegionNotFound && check_next(check_next(s, m), m2) == check_next(
                s,
                m,
            ),
        forall|kv: KvView|
            #[trigger] write_next(check_next(s, m), m.region_id, kv) == check_next(s, m),
{
    let i = s.replica_idx(m.region_id);
    assert(0 <= i < s.replicas.len() && s.replicas[i].region.id == m.region_id);
    let s2 = check_next(s, m);
    assert(s2.tombstones.last() == m.region_id);
    assert(s2.tombstones.contains(m.region_id));
    lemma_no_replica_after_remove(s, m.region_id, i);
    assert(!s2.has_replica(m.region_id));
}

/// Stale-epoch rejection: a message whose stamped epoch is strictly older
/// than the local authoritative epoch of a live replica is never accepted
/// and never asks for a refresh. While the cached membership still places a
/// peer of the region on this store — whoever the message is addressed to,
/// a member or a peer id never hosted here — the answer is `StaleEpoch` and
/// no state changes at all. Only a cache that itself proves this store's
/// removal lets the check retire the replica.
pub proof fn lemma_stale_epoch_rejected(s: StoreStateView, m: RegionMessage)
    requires
        s.wf(),
        !s.tombstones.contains(m.region_id),
        s.has_replica(m.region_id),
        epoch_stale(m.region_epoch, s.local_region(m.region_id).epoch),
    ensures
        check_decision(s, m) == CheckOutcome::RegionNotFound || check_decision(s, m)
            == CheckOutcome::StaleEpoch,
        s.local_region(m.region_id).has_peer_on_store(s.store_id) ==> check_decision(s, m)
            == CheckOutcome::StaleEpoch && check_next(s, m) == s,
{
}

/// Epoch monotonicity under the check itself: evaluating a message never
/// rolls a cached region back — any region id still hosted afterwards is
/// hosted with the very metadata (and so the very epoch) it had before.
pub proof fn lemma_check_keeps_cached_regions(s: StoreStateView, m: RegionMessage, id: u64)
    requires
        s.wf(),
        check_next(s, m).has_replica(id),
    ensures
        s.has_replica(id),
        check_next(s, m).local_region(id) == s.local_region(id),
{
    let s2 = check_next(s, m);
    if detects_tombstone(s, m) {
        let i = s.replica_idx(m.region_id);
        assert(0 <= i < s.replicas.len() && s.replicas[i].region.id == m.region_id);
        lemma_wf_after_destroy(s, m.region_id, i);
        let j = s2.replica_idx(id);
        assert(0 <= j < s2.replicas.len() && s2.replicas[j].region.id == id);
        let j0 = if j < i {
            j
        } else {
            j + 1
        };
        assert(s2.replicas[j] == s.replicas[j0]);
        lemma_replica_idx(s, id, j0);
        lemma_replica_idx(s2, id, j);
    }
}

/// Epoch monotonicity under writes: applying data moves no cached region
/// metadata at all — every hosted region keeps the very metadata (and so
/// the very epoch) it had before.
pub proof fn lemma_write_keeps_cached_regions(s: StoreStateView, id: u64, kv: KvView, q: u64)
    requires
        s.wf(),
    ensures
        write_next(s, id, kv).wf(),
        write_next(s, id, kv).has_replica(q) == s.has_replica(q),
        s.has_replica(q) ==> write_next(s, id, kv).local_region(q) == s.local_region(q),
{
    let s2 = write_next(s, id, kv);
    if !s.tombstones.contains(id) && s.has_replica(id) {
        let i = s.replica_idx(id);
        assert(0 <= i < s.replicas.len() && s.replicas[i].region.id == id);
        assert forall|a: int| 0 <= a < s2.replicas.len() implies (#[trigger] s2.replicas[a]).region
            == s.replicas[a].region by {
            if a != i {
                assert(s2.replicas[a] == s.replicas[a]);
            }
        }
        assert forall|a: int, b: int| 0 <= a < b < s2.replicas.len() implies #[trigger] s2
            .replicas[a].region.id != #[trigger] s2.replicas[b].region.id by {
            assert(s2.replicas[a].region == s.replicas[a].region);
            assert(s2.replicas[b].region == s.replicas[b].region);
        }
        assert forall|a: int| 0 <= a < s2.replicas.len() implies (
        #[trigger] s2.replicas[a]).region.wf() && !s2.tombstones.contains(
            s2.replicas[a].region.id,
        ) by {
            assert(s2.replicas[a].region == s.replicas[a].region);
        }
        if s.has_replica(q) {
            let j = s.replica_idx(q);
            assert(0 <= j < s.replicas.len() && s.replicas[j].region.id == q);
            assert(s2.replicas[j].region.id == q);
            assert(s2.has_replica(q));
            lemma_replica_idx(s2, q, j);
            lemma_replica_idx(s, q, j);
        }
        if s2.has_replica(q) {
            let j = s2.replica_idx(q);
            assert(0 <= j < s2.replicas.len() && s2.replicas[j].region.id == q);
            assert(s.replicas[j].region.id == q);
            assert(s.has_replica(q));
        }
    }
}

/// One step of the protocol at a store: evaluating an inbound message,
/// applying a replicated write, applying a valid committed membership
/// change, or folding in an authoritative refresh.
pub open spec fn protocol_step(s: StoreStateView, s2: StoreStateView) -> bool {
    ||| exists|m: RegionMessage| s2 == #[trigger] check_next(s, m)
    ||| exists|id: u64, kv: KvView| s2 == #[trigger] write_next(s, id, kv)
    ||| exists|id: u64, ct: ConfChangeType, p: Peer|
        conf_valid(s, id, ct, p) && s2 == #[trigger] conf_next(s, id, ct, p)
    ||| exists|rv: RegionView| rv.wf() && s2 == #[trigger] refresh_next(s, rv)
}

/// Epoch monotonicity: across any step of the protocol, the epoch a store
/// observes for a region it keeps hosting never decreases — neither
/// `version` nor `conf_ver`. Chained over a run of steps (see the epoch
/// transitivity lemma), epochs observed over time never decrease.
pub proof fn lemma_epoch_monotonic(s: StoreStateView, s2: StoreStateView, id: u64)
    requires
        s.wf(),
        s2.wf(),
        protocol_step(s, s2),
        s.has_replica(id),
        s2.has_replica(id),
    ensures
        epoch_le(s.local_region(id).epoch, s2.local_region(id).epoch),
{
    if exists|m: RegionMessage| s2 == #[trigger] check_next(s, m) {
        let m = choose|m: RegionMessage| s2 == check_next(s, m);
        lemma_check_keeps_cached_regions(s, m, id);
    } else if exists|id0: u64, kv: KvView| s2 == #[trigger] write_next(s, id0, kv) {
        let (id0, kv): (u64, KvView) = choose|id0: u64, kv: KvView|
            s2 == write_next(s, id0, kv);
        lemma_write_keeps_cached_regions(s, id0, kv, id);
    } else if exists|id0: u64, ct: ConfChangeType, p: Peer|
        conf_valid(s, id0, ct, p) && s2 == #[trigger] conf_next(s, id0, ct, p) {
        let (id0, ct, p): (u64, ConfChangeType, Peer) = choose|
            id0: u64,
            ct: ConfChangeType,
            p: Peer,
        | conf_valid(s, id0, ct, p) && s2 == conf_next(s, id0, ct, p);
        if s.has_replica(id0) {
            let i = s.replica_idx(id0);
            assert(0 <= i < s.replicas.len() && s.replicas[i].region.id == id0);
            let destroyed = ct is RemoveNode && p.store_id == s.store_id;
            if destroyed {
                lemma_survivor_kept(s, id0, i, s2, id);
            } else {
                lemma_updated_slot_kept(s, i, s2, id);
                if id == id0 {
                    lemma_replica_idx(s2, id0, i);
                    assert(s.local_region(id0).epoch.conf_ver < u64::MAX);
                }
            }
        }
    } else {
        let rv = choose|rv: RegionView| rv.wf() && s2 == refresh_next(s, rv);
        if s.has_replica(rv.id) {
            let i = s.replica_idx(rv.id);
            assert(0 <= i < s.replicas.len() && s.replicas[i].region.id == rv.id);
            let local = s.replicas[i].region;
            if epoch_stale(rv.epoch, local.epoch) {
            } else if !rv.has_peer_on_store(s.store_id) {
                lemma_survivor_kept(s, rv.id, i, s2, id);
            } else {
                lemma_updated_slot_kept(s, i, s2, id);
                if id == rv.id {
                    lemma_replica_idx(s2, rv.id, i);
                    assert(!epoch_stale(rv.epoch, local.epoch));
                }
            }
        }
    }
}

/// A region surviving the destruction of another replica's slot keeps its
/// metadata.
proof fn lemma_survivor_kept(s: StoreStateView, id0: u64, i: int, s2: StoreStateView, id: u64)
    requires
        s.wf(),
        s2.wf(),
        0 <= i < s.replicas.len(),
        s.replicas[i].region.id == id0,
        s2.replicas == s.replicas.remove(i),
        s.has_replica(id),
        s2.has_replica(id),
    ensures
        s2.local_region(id) == s.local_region(id),
{
    let j = s2.replica_idx(id);
    assert(0 <= j < s2.replicas.len() && s2.replicas[j].region.id == id);
    let j0 = if j < i {
        j
    } else {
        j + 1
    };
    assert(s2.replicas[j] == s.replicas[j0]);
    lemma_replica_idx(s, id, j0);
    lemma_replica_idx(s2, id, j);
}

/// A region other than the one in the replaced slot keeps its metadata; the
/// replaced slot keeps its region id.
proof fn lemma_updated_slot_kept(s: StoreStateView, i: int, s2: StoreStateView, id: u64)
    requires
        s.wf(),
        s2.wf(),
        0 <= i < s.replicas.len(),
        s2.replicas.len() == s.replicas.len(),
        forall|a: int| 0 <= a < s.replicas.len() && a != i ==> s2.replicas[a] == s.replicas[a],
        s2.replicas[i].region.id == s.replicas[i].region.id,
        s.has_replica(id),
    ensures
        s2.has_replica(id),
        id != s.replicas[i].region.id ==> s2.local_region(id) == s.local_region(id),
{
    let j = s.replica_idx(id);
    assert(0 <= j < s.replicas.len() && s.replicas[j].region.id == id);
    assert(s2.replicas[j].region.id == id);
    assert(s2.has_replica(id));
    if id != s.replicas[i].region.id {
        assert(j != i);
        lemma_replica_idx(s, id, j);
        lemma_replica_idx(s2, id, j);
    }
}

} // verus!
