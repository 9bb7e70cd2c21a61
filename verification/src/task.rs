//! Tasks: immutable descriptions of one outbound intent toward the placement
//! authority. A task is a value, not a live handle: it carries a snapshot of
//! region/peer/store state taken when it was constructed, so later mutation
//! of the originating region cannot change what an enqueued task does.

use vstd::prelude::*;

use crate::meta::ConfChangeType;
use crate::meta::Peer;
use crate::meta::Region;
use crate::meta::Store;
use crate::text::dec_of;
use crate::text::escape;
use crate::text::escape_of;
use crate::text::u64_to_dec;

verus! {

/// One outbound intent toward the placement authority.
#[derive(Debug)]
pub enum Task {
    /// Ask the authority to record a membership change already decided
    /// locally.
    AskChangePeer { change_type: ConfChangeType, region: Region, peer: Peer },
    /// Ask the authority to record a split, performed locally at `split_key`,
    /// reported by `peer`.
    AskSplit { region: Region, split_key: Vec<u8>, peer: Peer },
    /// Periodic liveness/capacity report for a store.
    Heartbeat { store: Store },
}

/// The name under which a membership change kind is shown.
pub open spec fn change_type_name(ct: ConfChangeType) -> Seq<char> {
    match ct {
        ConfChangeType::AddNode => "AddNode"@,
        ConfChangeType::RemoveNode => "RemoveNode"@,
        ConfChangeType::AddLearnerNode => "AddLearnerNode"@,
    }
}

/// The stable textual description of a task, for logs.
pub open spec fn task_description(t: Task) -> Seq<char> {
    match t {
        Task::AskChangePeer { change_type, region, .. } => "ask "@ + change_type_name(change_type)
            + " for region "@ + dec_of(region.id as nat),
        Task::AskSplit { region, split_key, .. } => "ask split region "@ + dec_of(region.id as nat)
            + " with key "@ + escape_of(split_key@),
        Task::Heartbeat { store } => "heartbeat for store "@ + dec_of(store.id as nat),
    }
}

fn change_type_str(ct: &ConfChangeType) -> (r: &'static str)
    ensures
        r@ == change_type_name(*ct),
{
    match ct {
        ConfChangeType::AddNode => "AddNode",
        ConfChangeType::RemoveNode => "RemoveNode",
        ConfChangeType::AddLearnerNode => "AddLearnerNode",
    }
}

impl Task {
    /// A membership-change report, snapshotting `region` and `peer` as they
    /// are now.
    pub fn change_peer(change_type: ConfChangeType, region: Region, peer: Peer) -> (t: Task)
        ensures
            t == (Task::AskChangePeer { change_type, region, peer }),
    {
        Task::AskChangePeer { change_type, region, peer }
    }

    /// A split report, snapshotting `region`, `split_key` and `peer` as they
    /// are now.
    pub fn split(region: Region, split_key: Vec<u8>, peer: Peer) -> (t: Task)
        ensures
            t == (Task::AskSplit { region, split_key, peer }),
    {
        Task::AskSplit { region, split_key, peer }
    }

    /// A store heartbeat, snapshotting `store` as it is now.
    pub fn heartbeat(store: Store) -> (t: Task)
        ensures
            t == (Task::Heartbeat { store }),
    {
        Task::Heartbeat { store }
    }

    /// The stable textual rendering for logs. It depends only on the
    /// carried snapshot and performs no I/O.
    pub fn describe(&self) -> (s: String)
        ensures
            s@ == task_description(*self),
    {
        match self {
            Task::AskChangePeer { change_type, region, .. } => {
                let mut s = String::from_str("ask ");
                s.append(change_type_str(change_type));
                s.append(" for region ");
                let id = u64_to_dec(region.id);
                s.append(id.as_str());
                proof {
                    assert(s@ =~= task_description(*self));
                }
                s
            },
            Task::AskSplit { region, split_key, .. } => {
                let mut s = String::from_str("ask split region ");
                let id = u64_to_dec(region.id);
                s.append(id.as_str());
                s.append(" with key ");
                let key = escape(split_key);
                s.append(key.as_str());
                proof {
                    assert(s@ =~= task_description(*self));
                }
                s
            },
            Task::Heartbeat { store } => {
                let mut s = String::from_str("heartbeat for store ");
                let id = u64_to_dec(store.id);
                s.append(id.as_str());
                proof {
                    assert(s@ =~= task_description(*self));
                }
                s
            },
        }
    }
}

} // verus!
