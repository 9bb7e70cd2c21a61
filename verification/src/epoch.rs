//! Region epochs: the monotonic version stamps by which stale replicas and
//! stale messages are recognized.

use vstd::prelude::*;

verus! {

/// Monotonic version stamp of a region's state. `version` is bumped when the
/// region's key range changes (split/merge); `conf_ver` is bumped on every
/// membership change. Both fields are non-decreasing over the region's
/// lifetime and are never reused.
#[derive(Clone, Copy, Debug, PartialEq, Eq, Structural)]
pub struct RegionEpoch {
    pub version: u64,
    pub conf_ver: u64,
}

/// `a` is no newer than `b` in either component.
pub open spec fn epoch_le(a: RegionEpoch, b: RegionEpoch) -> bool {
    a.version <= b.version && a.conf_ver <= b.conf_ver
}

/// `m` is strictly older than `l`: staler in at least one component.
pub open spec fn epoch_stale(m: RegionEpoch, l: RegionEpoch) -> bool {
    m.version < l.version || m.conf_ver < l.conf_ver
}

/// `m` is strictly ahead of `l` in at least one component.
pub open spec fn epoch_ahead(m: RegionEpoch, l: RegionEpoch) -> bool {
    m.version > l.version || m.conf_ver > l.conf_ver
}

/// Decides whether a message's epoch `m` is strictly older than the local
/// authoritative epoch `l`.
pub fn is_epoch_stale(m: &RegionEpoch, l: &RegionEpoch) -> (r: bool)
    ensures
        r == epoch_stale(*m, *l),
{
    m.version < l.version || m.conf_ver < l.conf_ver
}

/// Decides whether a message's epoch `m` is strictly ahead of the local
/// authoritative epoch `l`.
pub fn is_epoch_ahead(m: &RegionEpoch, l: &RegionEpoch) -> (r: bool)
    ensures
        r == epoch_ahead(*m, *l),
{
    m.version > l.version || m.conf_ver > l.conf_ver
}

/// Epoch monotonicity composes: an epoch that never decreases across any
/// single step never decreases across a whole run of steps.
pub proof fn lemma_epoch_le_trans(a: RegionEpoch, b: RegionEpoch, c: RegionEpoch)
    requires
        epoch_le(a, b),
        epoch_le(b, c),
    ensures
        epoch_le(a, c),
{
}

} // verus!
