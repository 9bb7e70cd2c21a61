//! The placement-authority capability: the interface the core calls to
//! request changes and report state, and an in-memory double of it. The
//! authority's own scheduling is opaque; only the contract at this interface
//! is stated.

use vstd::prelude::*;

use crate::meta::Peer;
use crate::meta::Region;
use crate::meta::RegionView;
use crate::meta::Store;
use crate::meta::StoreView;

verus! {

/// A transient failure of an authority call: network trouble, a timeout, or
/// an authority-side error. Callers treat it as a normal failure, never as a
/// crash.
#[derive(Clone, Copy, Debug, PartialEq, Eq, Structural)]
pub struct PdError;

/// The observable state of the placement authority: the stores it knows of
/// and the regions it holds authoritative metadata for.
#[verifier::ext_equal]
pub struct AuthorityState {
    pub stores: Map<u64, StoreView>,
    pub regions: Map<u64, RegionView>,
}

impl AuthorityState {
    /// The state after an upsert of `s`: last write wins per store id.
    pub open spec fn upsert_store(self, s: StoreView) -> AuthorityState {
        AuthorityState { stores: self.stores.insert(s.id, s), ..self }
    }

    /// The state after the authority records `r` as the authoritative
    /// metadata of region `r.id`.
    pub open spec fn upsert_region(self, r: RegionView) -> AuthorityState {
        AuthorityState { regions: self.regions.insert(r.id, r), ..self }
    }
}

/// The placement-authority capability. All four operations are potentially
/// slow and network-bound; the core calls them only from the coordination
/// worker or from explicitly scheduled epoch lookups, never from the
/// replication hot path. Read-style operations take `&self`; `put_store`
/// writes and takes the capability exclusively.
pub trait PdClient: Sized {
    /// The authority state this client observes.
    spec fn authority(&self) -> AuthorityState;

    /// Request recording of a membership change already decided locally.
    /// Idempotent from the caller's side; the authority's scheduling of it is
    /// opaque, so nothing is promised beyond success or transient failure.
    fn ask_change_peer(&self, region: Region, peer: Peer) -> (r: Result<(), PdError>);

    /// Request recording of a locally performed split at `split_key`.
    /// Idempotent for the same split key; scheduling is opaque.
    fn ask_split(&self, region: Region, split_key: Vec<u8>, peer: Peer) -> (r: Result<
        (),
        PdError,
    >);

    /// Upsert store liveness/capacity; last write wins per store id. On a
    /// transient failure nothing is recorded.
    fn put_store(&mut self, store: Store) -> (r: Result<(), PdError>)
        ensures
            r is Ok ==> final (self).authority() == old(self).authority().upsert_store(store@),
            r is Err ==> final (self).authority() == old(self).authority(),
    ;

    /// Authoritative lookup of a region's current metadata, used to obtain
    /// the current epoch for comparison.
    fn get_region_by_id(&self, region_id: u64) -> (r: Result<Option<Region>, PdError>)
        ensures
            r matches Ok(Some(reg)) ==> self.authority().regions.contains_key(region_id)
                && reg@ == self.authority().regions[region_id],
            r matches Ok(None) ==> !self.authority().regions.contains_key(region_id),
    ;
}

/// The store map held by a record of stores, later entries winning.
pub open spec fn stores_map(s: Seq<Store>) -> Map<u64, StoreView>
    decreases s.len(),
{
    if s.len() == 0 {
        Map::empty()
    } else {
        stores_map(s.drop_last()).insert(s.last()@.id, s.last()@)
    }
}

/// The region map held by a record of regions, later entries winning.
pub open spec fn regions_map(s: Seq<Region>) -> Map<u64, RegionView>
    decreases s.len(),
{
    if s.len() == 0 {
        Map::empty()
    } else {
        regions_map(s.drop_last()).insert(s.last()@.id, s.last()@)
    }
}

/// The latest record with a given id decides the region map at that id.
proof fn lemma_regions_map_found(s: Seq<Region>, i: int)
    requires
        0 <= i < s.len(),
        forall|j: int| i < j < s.len() ==> #[trigger] s[j]@.id != s[i]@.id,
    ensures
        regions_map(s).contains_key(s[i]@.id),
        regions_map(s)[s[i]@.id] == s[i]@,
    decreases s.len(),
{
    if i == s.len() - 1 {
    } else {
        assert(s.drop_last()[i] == s[i]);
        assert forall|j: int| i < j < s.drop_last().len() implies #[trigger] s.drop_last()[j]@.id
            != s.drop_last()[i]@.id by {
            assert(s.drop_last()[j] == s[j]);
        }
        lemma_regions_map_found(s.drop_last(), i);
        assert(s[s.len() - 1]@.id != s[i]@.id);
    }
}

/// An id no record carries is absent from the region map.
proof fn lemma_regions_map_absent(s: Seq<Region>, id: u64)
    requires
        forall|j: int| 0 <= j < s.len() ==> #[trigger] s[j]@.id != id,
    ensures
        !regions_map(s).contains_key(id),
    decreases s.len(),
{
    if s.len() > 0 {
        assert forall|j: int| 0 <= j < s.drop_last().len() implies #[trigger] s.drop_last()[j]@.id
            != id by {
            assert(s.drop_last()[j] == s[j]);
        }
        lemma_regions_map_absent(s.drop_last(), id);
    }
}

/// The latest record with a given id decides the store map at that id.
proof fn lemma_stores_map_found(s: Seq<Store>, i: int)
    requires
        0 <= i < s.len(),
        forall|j: int| i < j < s.len() ==> #[trigger] s[j]@.id != s[i]@.id,
    ensures
        stores_map(s).contains_key(s[i]@.id),
        stores_map(s)[s[i]@.id] == s[i]@,
    decreases s.len(),
{
    if i == s.len() - 1 {
    } else {
        assert(s.drop_last()[i] == s[i]);
        assert forall|j: int| i < j < s.drop_last().len() implies #[trigger] s.drop_last()[j]@.id
            != s.drop_last()[i]@.id by {
            assert(s.drop_last()[j] == s[j]);
        }
        lemma_stores_map_found(s.drop_last(), i);
        assert(s[s.len() - 1]@.id != s[i]@.id);
    }
}

/// An id no record carries is absent from the store map.
proof fn lemma_stores_map_absent(s: Seq<Store>, id: u64)
    requires
        forall|j: int| 0 <= j < s.len() ==> #[trigger] s[j]@.id != id,
    ensures
        !stores_map(s).contains_key(id),
    decreases s.len(),
{
    if s.len() > 0 {
        assert forall|j: int| 0 <= j < s.drop_last().len() implies #[trigger] s.drop_last()[j]@.id
            != id by {
            assert(s.drop_last()[j] == s[j]);
        }
        lemma_stores_map_absent(s.drop_last(), id);
    }
}

/// An in-memory double of the placement authority, for verification and
/// tests. Records are append-only; the latest record per id wins. A failure
/// switch makes every call return a transient error, leaving the state
/// untouched.
pub struct MemPdClient {
    records_stores: Vec<Store>,
    records_regions: Vec<Region>,
    failing: bool,
}

impl MemPdClient {
    /// Whether the failure switch is on.
    pub closed spec fn is_failing(&self) -> bool {
        self.failing
    }

    /// An empty authority that answers every call.
    pub fn new() -> (r: MemPdClient)
        ensures
            r.authority() == (AuthorityState {
                stores: Map::empty(),
                regions: Map::empty(),
            }),
            !r.is_failing(),
    {
        MemPdClient { records_stores: Vec::new(), records_regions: Vec::new(), failing: false }
    }

    /// Turn the failure switch on or off; the observed state is untouched.
    pub fn set_failing(&mut self, failing: bool)
        ensures
            final (self).authority() == old(self).authority(),
            final (self).is_failing() == failing,
    {
        self.failing = failing;
    }

    /// What this double holds for store `store_id`: the last heartbeat that
    /// landed, if any.
    pub fn get_store(&self, store_id: u64) -> (r: Option<Store>)
        ensures
            match r {
                Some(st) => self.authority().stores.contains_key(store_id) && st@
                    == self.authority().stores[store_id],
                None => !self.authority().stores.contains_key(store_id),
            },
    {
        let n = self.records_stores.len();
        let mut i: usize = n;
        while i > 0
            invariant
                i <= n,
                n == self.records_stores.len(),
                forall|j: int| i <= j < n ==> #[trigger] self.records_stores[j]@.id != store_id,
            decreases i,
        {
            i = i - 1;
            if self.records_stores[i].id == store_id {
                let found = self.records_stores[i].clone();
                proof {
                    lemma_stores_map_found(self.records_stores@, i as int);
                }
                return Some(found);
            }
        }
        proof {
            lemma_stores_map_absent(self.records_stores@, store_id);
        }
        None
    }

    /// Authority-side recording of a region's authoritative metadata, as the
    /// rest of the cluster would have reported it.
    pub fn record_region(&mut self, region: Region)
        ensures
            final (self).authority() == old(self).authority().upsert_region(region@),
            final (self).is_failing() == old(self).is_failing(),
    {
        let ghost before = self.authority();
        self.records_regions.push(region);
        proof {
            assert(self.records_regions@.drop_last() =~= old(self).records_regions@);
            assert(self.authority() =~= before.upsert_region(region@));
        }
    }
}

impl PdClient for MemPdClient {
    closed spec fn authority(&self) -> AuthorityState {
        AuthorityState {
            stores: stores_map(self.records_stores@),
            regions: regions_map(self.records_regions@),
        }
    }

    fn ask_change_peer(&self, region: Region, peer: Peer) -> (r: Result<(), PdError>)
        ensures
            r is Ok <==> !self.is_failing(),
    {
        if self.failing {
            Err(PdError)
        } else {
            Ok(())
        }
    }

    fn ask_split(&self, region: Region, split_key: Vec<u8>, peer: Peer) -> (r: Result<
        (),
        PdError,
    >)
        ensures
            r is Ok <==> !self.is_failing(),
    {
        if self.failing {
            Err(PdError)
        } else {
            Ok(())
        }
    }

    fn put_store(&mut self, store: Store) -> (r: Result<(), PdError>)
        ensures
            r is Ok <==> !old(self).is_failing(),
            final (self).is_failing() == old(self).is_failing(),
    {
        if self.failing {
            Err(PdError)
        } else {
            let ghost before = self.authority();
            self.records_stores.push(store);
            proof {
                assert(self.records_stores@.drop_last() =~= old(self).records_stores@);
                assert(self.authority() =~= before.upsert_store(
                    old(self).records_stores@.push(store).last()@,
                ));
            }
            Ok(())
        }
    }

    fn get_region_by_id(&self, region_id: u64) -> (r: Result<Option<Region>, PdError>)
        ensures
            r is Ok <==> !self.is_failing(),
    {
        if self.failing {
            return Err(PdError);
        }
        let n = self.records_regions.len();
        let mut i: usize = n;
        while i > 0
            invariant
                i <= n,
                n == self.records_regions.len(),
                !self.is_failing(),
                forall|j: int|
                    i <= j < n ==> #[trigger] self.records_regions[j]@.id != region_id,
            decreases i,
        {
            i = i - 1;
            if self.records_regions[i].id == region_id {
                let found = self.records_regions[i].clone();
                proof {
                    lemma_regions_map_found(self.records_regions@, i as int);
                }
                return Ok(Some(found));
            }
        }
        proof {
            lemma_regions_map_absent(self.records_regions@, region_id);
        }
        Ok(None)
    }
}

} // verus!
