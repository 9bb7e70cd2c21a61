//! Cluster metadata: stores, peers, regions and the membership/split
//! operations that are the only way a region's peer set and epoch change.

use vstd::prelude::*;

use crate::epoch::RegionEpoch;
use crate::epoch::epoch_le;

verus! {

/// One replica of a region, located on one store.
#[derive(Clone, Copy, Debug, PartialEq, Eq, Structural)]
pub struct Peer {
    pub id: u64,
    pub store_id: u64,
}

/// A physical node hosting replicas. The id is immutable once registered.
#[derive(Debug)]
pub struct Store {
    pub id: u64,
    pub address: String,
}

/// Mathematical model of a [`Store`].
#[verifier::ext_equal]
pub struct StoreView {
    pub id: u64,
    pub address: Seq<char>,
}

impl View for Store {
    type V = StoreView;

    open spec fn view(&self) -> StoreView {
        StoreView { id: self.id, address: self.address@ }
    }
}

impl Clone for Store {
    fn clone(&self) -> (r: Self)
        ensures
            r@ == self@,
    {
        Store { id: self.id, address: self.address.clone() }
    }
}

/// The kind of membership change applied to a region.
#[derive(Clone, Copy, Debug, PartialEq, Eq, Structural)]
pub enum ConfChangeType {
    AddNode,
    RemoveNode,
    AddLearnerNode,
}

/// A contiguous key range `[start_key, end_key)` and its replication group.
/// The peer set and the epoch change only through the membership and split
/// operations below; the region id is immutable.
#[derive(Debug)]
pub struct Region {
    pub id: u64,
    pub start_key: Vec<u8>,
    pub end_key: Vec<u8>,
    pub peers: Vec<Peer>,
    pub epoch: RegionEpoch,
}

/// Mathematical model of a [`Region`].
#[verifier::ext_equal]
pub struct RegionView {
    pub id: u64,
    pub start_key: Seq<u8>,
    pub end_key: Seq<u8>,
    pub peers: Seq<Peer>,
    pub epoch: RegionEpoch,
}

impl View for Region {
    type V = RegionView;

    open spec fn view(&self) -> RegionView {
        RegionView {
            id: self.id,
            start_key: self.start_key@,
            end_key: self.end_key@,
            peers: self.peers@,
            epoch: self.epoch,
        }
    }
}

impl RegionView {
    /// A region's peer set has unique peer ids, and a store hosts at most one
    /// peer per region.
    pub open spec fn wf(self) -> bool {
        forall|i: int, j: int|
            0 <= i < j < self.peers.len() ==> #[trigger] self.peers[i].id != #[trigger] self.peers[j].id
                && self.peers[i].store_id != self.peers[j].store_id
    }

    /// Some peer of this region lives on store `store_id`.
    pub open spec fn has_peer_on_store(self, store_id: u64) -> bool {
        exists|i: int| 0 <= i < self.peers.len() && #[trigger] self.peers[i].store_id == store_id
    }

    /// `peer` may join this region: its ids collide with no existing peer.
    pub open spec fn can_add(self, peer: Peer) -> bool {
        forall|i: int|
            0 <= i < self.peers.len() ==> #[trigger] self.peers[i].id != peer.id
                && self.peers[i].store_id != peer.store_id
    }
}

/// `s` with every occurrence of `p` removed, order otherwise kept.
pub open spec fn peers_without(s: Seq<Peer>, p: Peer) -> Seq<Peer>
    decreases s.len(),
{
    if s.len() == 0 {
        Seq::empty()
    } else {
        let r = peers_without(s.drop_last(), p);
        if s.last() == p {
            r
        } else {
            r.push(s.last())
        }
    }
}

/// What removal keeps: everything but `p`, in order, nothing else.
pub proof fn lemma_peers_without(s: Seq<Peer>, p: Peer)
    ensures
        !peers_without(s, p).contains(p),
        forall|q: Peer| q != p ==> peers_without(s, p).contains(q) == s.contains(q),
        peers_without(s, p).len() <= s.len(),
        forall|i: int|
            0 <= i < peers_without(s, p).len() ==> s.contains(#[trigger] peers_without(s, p)[i]),
    decreases s.len(),
{
    if s.len() > 0 {
        lemma_peers_without(s.drop_last(), p);
        let pw = peers_without(s, p);
        let r = peers_without(s.drop_last(), p);
        assert forall|q: Peer| q != p implies pw.contains(q) == s.contains(q) by {
            if s.contains(q) {
                let i = choose|i: int| 0 <= i < s.len() && s[i] == q;
                if i < s.len() - 1 {
                    assert(s.drop_last()[i] == q);
                    assert(s.drop_last().contains(q));
                    let k = choose|k: int| 0 <= k < r.len() && r[k] == q;
                    assert(pw[k] == q);
                    assert(pw.contains(q));
                } else {
                    assert(s.last() == q);
                    assert(pw[pw.len() - 1] == q);
                    assert(pw.contains(q));
                }
            }
            if pw.contains(q) {
                let i = choose|i: int| 0 <= i < pw.len() && pw[i] == q;
                if s.last() != p && i == pw.len() - 1 {
                    assert(s[s.len() - 1] == q);
                    assert(s.contains(q));
                } else {
                    assert(r[i] == q);
                    assert(r.contains(q));
                    let j = choose|j: int| 0 <= j < s.len() - 1 && s.drop_last()[j] == q;
                    assert(s[j] == q);
                    assert(s.contains(q));
                }
            }
        }
        assert forall|i: int| 0 <= i < peers_without(s, p).len() implies s.contains(
            #[trigger] peers_without(s, p)[i],
        ) by {
            if s.last() != p && i == peers_without(s, p).len() - 1 {
                assert(s[s.len() - 1] == peers_without(s, p)[i]);
            } else {
                assert(peers_without(s.drop_last(), p)[i] == peers_without(s, p)[i]);
                assert(s.drop_last().contains(peers_without(s, p)[i]));
                let j = choose|j: int|
                    0 <= j < s.len() - 1 && s.drop_last()[j] == peers_without(s, p)[i];
                assert(s[j] == peers_without(s, p)[i]);
            }
        }
    }
}

impl Region {
    /// A fresh region value from its parts.
    pub fn new(
        id: u64,
        start_key: Vec<u8>,
        end_key: Vec<u8>,
        peers: Vec<Peer>,
        epoch: RegionEpoch,
    ) -> (r: Region)
        ensures
            r@ == (RegionView {
                id,
                start_key: start_key@,
                end_key: end_key@,
                peers: peers@,
                epoch,
            }),
    {
        Region { id, start_key, end_key, peers, epoch }
    }

    /// The peer of this region hosted on `store_id`, if any.
    pub fn find_peer(&self, store_id: u64) -> (r: Option<Peer>)
        ensures
            match r {
                Some(p) => self@.peers.contains(p) && p.store_id == store_id,
                None => !self@.has_peer_on_store(store_id),
            },
    {
        let n = self.peers.len();
        let mut i: usize = 0;
        while i < n
            invariant
                i <= n,
                n == self.peers.len(),
                forall|j: int| 0 <= j < i ==> #[trigger] self.peers[j].store_id != store_id,
            decreases n - i,
        {
            if self.peers[i].store_id == store_id {
                return Some(self.peers[i]);
            }
            i = i + 1;
        }
        None
    }

    /// Whether `peer` (same id and store) is a member of this region.
    pub fn contains_peer(&self, peer: &Peer) -> (r: bool)
        ensures
            r == self@.peers.contains(*peer),
    {
        let n = self.peers.len();
        let mut i: usize = 0;
        while i < n
            invariant
                i <= n,
                n == self.peers.len(),
                forall|j: int| 0 <= j < i ==> #[trigger] self.peers[j] != *peer,
            decreases n - i,
        {
            if self.peers[i].id == peer.id && self.peers[i].store_id == peer.store_id {
                assert(self.peers[i as int] == *peer);
                return true;
            }
            i = i + 1;
        }
        false
    }

    /// Apply an agreed membership change that adds `peer`, bumping `conf_ver`.
    pub fn add_peer(&mut self, peer: Peer)
        requires
            old(self)@.wf(),
            old(self)@.can_add(peer),
            old(self)@.epoch.conf_ver < u64::MAX,
        ensures
            final(self)@.peers == old(self)@.peers.push(peer),
            final(self)@.epoch.conf_ver == old(self)@.epoch.conf_ver + 1,
            final(self)@.epoch.version == old(self)@.epoch.version,
            final(self)@.id == old(self)@.id,
            final(self)@.start_key == old(self)@.start_key,
            final(self)@.end_key == old(self)@.end_key,
            final(self)@.wf(),
            epoch_le(old(self)@.epoch, final(self)@.epoch),
    {
        self.peers.push(peer);
        self.epoch.conf_ver = self.epoch.conf_ver + 1;
        proof {
            let o = old(self)@.peers;
            let s = self@.peers;
            assert forall|i: int, j: int| 0 <= i < j < s.len() implies #[trigger] s[i].id
                != #[trigger] s[j].id && s[i].store_id != s[j].store_id by {
                if j == s.len() - 1 {
                    assert(s[i] == o[i]);
                    assert(o[i].id != peer.id && o[i].store_id != peer.store_id);
                } else {
                    assert(s[i] == o[i] && s[j] == o[j]);
                }
            }
        }
    }

    /// Apply an agreed membership change that removes `peer`, bumping
    /// `conf_ver`.
    pub fn remove_peer(&mut self, peer: Peer)
        requires
            old(self)@.wf(),
            old(self)@.peers.contains(peer),
            old(self)@.epoch.conf_ver < u64::MAX,
        ensures
            final(self)@.peers == peers_without(old(self)@.peers, peer),
            !final(self)@.peers.contains(peer),
            forall|q: Peer| q != peer ==> final(self)@.peers.contains(q) == old(self)@.peers.contains(q),
            final(self)@.epoch.conf_ver == old(self)@.epoch.conf_ver + 1,
            final(self)@.epoch.version == old(self)@.epoch.version,
            final(self)@.id == old(self)@.id,
            final(self)@.start_key == old(self)@.start_key,
            final(self)@.end_key == old(self)@.end_key,
            final(self)@.wf(),
            epoch_le(old(self)@.epoch, final(self)@.epoch),
    {
        let ghost orig = self.peers@;
        let n = self.peers.len();
        let mut kept: Vec<Peer> = Vec::new();
        let mut i: usize = 0;
        while i < n
            invariant
                i <= n,
                n == self.peers.len(),
                self.peers@ == orig,
                kept@ == peers_without(orig.take(i as int), peer),
            decreases n - i,
        {
            let p = self.peers[i];
            proof {
                assert(orig.take(i + 1).drop_last() =~= orig.take(i as int));
                assert(orig.take(i + 1).last() == orig[i as int]);
            }
            if !(p.id == peer.id && p.store_id == peer.store_id) {
                assert(p != peer);
                kept.push(p);
            } else {
                assert(p == peer);
            }
            i = i + 1;
        }
        proof {
            assert(orig.take(n as int) =~= orig);
            lemma_peers_without(orig, peer);
        }
        self.peers = kept;
        self.epoch.conf_ver = self.epoch.conf_ver + 1;
        proof {
            let s = self@.peers;
            assert forall|i: int, j: int| 0 <= i < j < s.len() implies #[trigger] s[i].id
                != #[trigger] s[j].id && s[i].store_id != s[j].store_id by {
                let a = choose|a: int| 0 <= a < orig.len() && orig[a] == s[i];
                assert(orig.contains(s[j]));
                let b = choose|b: int| 0 <= b < orig.len() && orig[b] == s[j];
                if a == b {
                    // two distinct slots of the kept sequence cannot hold one
                    // and the same value: peer ids are unique before removal
                    assert(orig[a] == s[i] && orig[a] == s[j]);
                    lemma_without_unique(orig, peer, i, j);
                } else if a < b {
                    assert(orig[a].id != orig[b].id && orig[a].store_id != orig[b].store_id);
                } else {
                    assert(orig[b].id != orig[a].id && orig[b].store_id != orig[a].store_id);
                }
            }
        }
    }

    /// Record a locally performed split of this region at `split_key`: this
    /// value keeps the left half `[start_key, split_key)` and bumps `version`.
    pub fn apply_split(&mut self, split_key: Vec<u8>)
        requires
            old(self)@.epoch.version < u64::MAX,
        ensures
            final(self)@.end_key == split_key@,
            final(self)@.epoch.version == old(self)@.epoch.version + 1,
            final(self)@.epoch.conf_ver == old(self)@.epoch.conf_ver,
            final(self)@.id == old(self)@.id,
            final(self)@.start_key == old(self)@.start_key,
            final(self)@.peers == old(self)@.peers,
            epoch_le(old(self)@.epoch, final(self)@.epoch),
    {
        self.end_key = split_key;
        self.epoch.version = self.epoch.version + 1;
    }
}

/// Distinct slots of `peers_without(s, p)` come from distinct slots of a
/// duplicate-free `s`.
proof fn lemma_without_unique(s: Seq<Peer>, p: Peer, i: int, j: int)
    requires
        forall|a: int, b: int|
            0 <= a < b < s.len() ==> #[trigger] s[a].id != #[trigger] s[b].id,
        0 <= i < j < peers_without(s, p).len(),
    ensures
        peers_without(s, p)[i].id != peers_without(s, p)[j].id,
    decreases s.len(),
{
    if s.len() > 0 {
        let r = peers_without(s.drop_last(), p);
        if s.last() == p {
            lemma_without_unique(s.drop_last(), p, i, j);
        } else {
            if j < r.len() {
                lemma_without_unique(s.drop_last(), p, i, j);
            } else {
                // j names the appended last element; i names an element kept
                // from the prefix, whose id differs by uniqueness of s
                lemma_peers_without(s.drop_last(), p);
                assert(s.drop_last().contains(r[i]));
                let a = choose|a: int| 0 <= a < s.len() - 1 && s.drop_last()[a] == r[i];
                assert(s[a] == r[i]);
                assert(s[a].id != s[s.len() - 1].id);
            }
        }
    }
}

impl Clone for Region {
    fn clone(&self) -> (r: Self)
        ensures
            r@ == self@,
    {
        Region {
            id: self.id,
            start_key: copy_bytes(&self.start_key),
            end_key: copy_bytes(&self.end_key),
            peers: copy_peers(&self.peers),
            epoch: self.epoch,
        }
    }
}

/// A fresh byte vector with the same contents.
pub fn copy_bytes(v: &Vec<u8>) -> (r: Vec<u8>)
    ensures
        r@ == v@,
{
    let n = v.len();
    let mut r: Vec<u8> = Vec::new();
    let mut i: usize = 0;
    while i < n
        invariant
            i <= n,
            n == v.len(),
            r@ == v@.take(i as int),
        decreases n - i,
    {
        r.push(v[i]);
        proof {
            assert(v@.take(i + 1) =~= v@.take(i as int).push(v@[i as int]));
        }
        i = i + 1;
    }
    proof {
        assert(v@.take(n as int) =~= v@);
    }
    r
}

/// A fresh peer vector with the same contents.
fn copy_peers(v: &Vec<Peer>) -> (r: Vec<Peer>)
    ensures
        r@ == v@,
{
    let n = v.len();
    let mut r: Vec<Peer> = Vec::new();
    let mut i: usize = 0;
    while i < n
        invariant
            i <= n,
            n == v.len(),
            r@ == v@.take(i as int),
        decreases n - i,
    {
        r.push(v[i]);
        proof {
            assert(v@.take(i + 1) =~= v@.take(i as int).push(v@[i as int]));
        }
        i = i + 1;
    }
    proof {
        assert(v@.take(n as int) =~= v@);
    }
    r
}

} // verus!
