use pdworker::epoch::RegionEpoch;
use pdworker::meta::ConfChangeType;
use pdworker::meta::Peer;
use pdworker::meta::Region;
use pdworker::protocol::CheckOutcome;
use pdworker::protocol::RegionMessage;
use pdworker::protocol::StoreState;

fn new_peer(id: u64, store_id: u64) -> Peer {
    Peer { id, store_id }
}

fn new_region(id: u64, peers: Vec<Peer>, version: u64, conf_ver: u64) -> Region {
    Region::new(id, Vec::new(), Vec::new(), peers, RegionEpoch { version, conf_ver })
}

fn hosting_stores(stores: &[StoreState], region: &Region) -> Vec<usize> {
    let mut out: Vec<usize> = Vec::new();
    let mut i: usize = 0;
    while i < stores.len() {
        if region.find_peer(stores[i].store_id).is_some() {
            out.push(i);
        }
        i = i + 1;
    }
    out
}

fn put_everywhere(stores: &mut Vec<StoreState>, region_id: u64, key: &[u8], value: &[u8]) {
    let mut i: usize = 0;
    while i < stores.len() {
        stores[i].apply_write(region_id, key.to_vec(), value.to_vec());
        i = i + 1;
    }
}

fn change_peer(
    stores: &mut Vec<StoreState>,
    region: &mut Region,
    change_type: ConfChangeType,
    peer: Peer,
) {
    for i in hosting_stores(stores, region) {
        stores[i].apply_conf_change(region.id, change_type, peer);
    }
    match change_type {
        ConfChangeType::RemoveNode => region.remove_peer(peer),
        _ => region.add_peer(peer),
    }
}

fn test_tombstone(count: u64) {
    let mut stores: Vec<StoreState> = Vec::new();
    let mut sid: u64 = 1;
    while sid <= count {
        stores.push(StoreState::new(sid));
        sid = sid + 1;
    }

    // bootstrap region 1 with one voter on store 1
    let mut region = new_region(1, vec![new_peer(1, 1)], 1, 1);
    stores[0].install_region(region.clone());

    // add peer (2, 2) to region 1
    change_peer(&mut stores, &mut region, ConfChangeType::AddNode, new_peer(2, 2));
    stores[1].install_region(region.clone());

    let (key, value) = (b"a1", b"v1");
    put_everywhere(&mut stores, 1, key, value);
    assert_eq!(stores[0].get(1, &key.to_vec()), Some(value.to_vec()));
    assert_eq!(stores[1].get(1, &key.to_vec()), Some(value.to_vec()));

    // a status query addressed to peer (2, 2) confirms liveness
    assert!(stores[1].region_status(1).is_some());

    // add peer (3, 3) to region 1, then remove peer (2, 2) from region 1
    change_peer(&mut stores, &mut region, ConfChangeType::AddNode, new_peer(3, 3));
    stores[2].install_region(region.clone());
    change_peer(&mut stores, &mut region, ConfChangeType::RemoveNode, new_peer(2, 2));

    let (key, value) = (b"a3", b"v3");
    put_everywhere(&mut stores, 1, key, value);
    assert_eq!(stores[0].get(1, &key.to_vec()), Some(value.to_vec()));
    assert_eq!(stores[2].get(1, &key.to_vec()), Some(value.to_vec()));

    // store 2 applied its own removal: its replica is destroyed and holds
    // neither the data written before the removal nor the data written after
    assert_eq!(stores[1].get(1, &b"a1".to_vec()), None);
    assert_eq!(stores[1].get(1, &b"a3".to_vec()), None);

    // send a stale message, stamped with the current epoch, to peer (2, 2)
    let epoch = region.epoch;
    let msg = RegionMessage {
        region_id: 1,
        from_peer: new_peer(1, 1),
        to_peer: new_peer(2, 2),
        region_epoch: epoch,
    };
    assert_eq!(stores[1].check_message(&msg), CheckOutcome::RegionNotFound);

    // a status query addressed to peer (2, 2) now answers region-not-found
    assert!(stores[1].region_status(1).is_none());
}

#[test]
fn test_node_tombstone() {
    let count: u64 = 5;
    test_tombstone(count);
}

#[test]
fn test_server_tombstone() {
    let count: u64 = 5;
    test_tombstone(count);
}

#[test]
fn scenario_add_peer_replicates() {
    // region 1 with peers {1, 2}; add peer 3; a write lands on all three
    let mut stores: Vec<StoreState> =
        vec![StoreState::new(1), StoreState::new(2), StoreState::new(3)];
    let mut region = new_region(1, vec![new_peer(1, 1), new_peer(2, 2)], 1, 7);
    stores[0].install_region(region.clone());
    stores[1].install_region(region.clone());

    change_peer(&mut stores, &mut region, ConfChangeType::AddNode, new_peer(3, 3));
    assert_eq!(region.epoch.conf_ver, 8);
    stores[2].install_region(region.clone());

    put_everywhere(&mut stores, 1, b"a1", b"v1");
    assert_eq!(stores[0].get(1, &b"a1".to_vec()), Some(b"v1".to_vec()));
    assert_eq!(stores[1].get(1, &b"a1".to_vec()), Some(b"v1".to_vec()));
    assert_eq!(stores[2].get(1, &b"a1".to_vec()), Some(b"v1".to_vec()));
}

#[test]
fn scenario_remove_peer_tombstones() {
    // from the add-peer scenario: remove peer 2; its store holds no data and
    // answers region-not-found
    let mut stores: Vec<StoreState> =
        vec![StoreState::new(1), StoreState::new(2), StoreState::new(3)];
    let mut region = new_region(1, vec![new_peer(1, 1), new_peer(2, 2)], 1, 7);
    stores[0].install_region(region.clone());
    stores[1].install_region(region.clone());
    change_peer(&mut stores, &mut region, ConfChangeType::AddNode, new_peer(3, 3));
    stores[2].install_region(region.clone());
    put_everywhere(&mut stores, 1, b"a1", b"v1");

    change_peer(&mut stores, &mut region, ConfChangeType::RemoveNode, new_peer(2, 2));
    assert_eq!(region.epoch.conf_ver, 9);

    put_everywhere(&mut stores, 1, b"a3", b"v3");
    assert_eq!(stores[1].get(1, &b"a1".to_vec()), None);
    assert_eq!(stores[1].get(1, &b"a3".to_vec()), None);
    assert!(stores[1].region_status(1).is_none());
    assert!(stores[0].region_status(1).is_some());
    assert_eq!(stores[0].get(1, &b"a3".to_vec()), Some(b"v3".to_vec()));
}

#[test]
fn scenario_pre_removal_epoch_message() {
    // a message stamped with the pre-removal epoch, addressed to the removed
    // peer: region-not-found, not a crash or silent acceptance
    let mut stores: Vec<StoreState> =
        vec![StoreState::new(1), StoreState::new(2), StoreState::new(3)];
    let mut region = new_region(1, vec![new_peer(1, 1), new_peer(2, 2)], 1, 7);
    stores[0].install_region(region.clone());
    stores[1].install_region(region.clone());
    change_peer(&mut stores, &mut region, ConfChangeType::AddNode, new_peer(3, 3));
    stores[2].install_region(region.clone());
    let pre_removal_epoch = region.epoch;
    change_peer(&mut stores, &mut region, ConfChangeType::RemoveNode, new_peer(2, 2));

    let msg = RegionMessage {
        region_id: 1,
        from_peer: new_peer(1, 1),
        to_peer: new_peer(2, 2),
        region_epoch: pre_removal_epoch,
    };
    assert_eq!(stores[1].check_message(&msg), CheckOutcome::RegionNotFound);
    // answered identically a second time, without re-deriving the decision
    assert_eq!(stores[1].check_message(&msg), CheckOutcome::RegionNotFound);
}

#[test]
fn missed_removal_detected_by_stale_message() {
    // store 2 misses the removal: its cache still lists its own peer. Once
    // its cache is refreshed from the authority, a message stamped with the
    // pre-removal epoch proves its peer was removed and tombstones it.
    let mut store2 = StoreState::new(2);
    let region_v7 = new_region(1, vec![new_peer(1, 1), new_peer(2, 2), new_peer(3, 3)], 1, 7);
    store2.install_region(region_v7.clone());

    // authoritative state after the removal, which store 2 never applied
    let region_v8 = new_region(1, vec![new_peer(1, 1), new_peer(3, 3)], 1, 8);

    // a current-epoch message reaches store 2 first: ahead of its knowledge
    let current = RegionMessage {
        region_id: 1,
        from_peer: new_peer(1, 1),
        to_peer: new_peer(2, 2),
        region_epoch: region_v8.epoch,
    };
    assert_eq!(store2.check_message(&current), CheckOutcome::NeedRefresh);

    // the out-of-band refresh shows no peer of region 1 lives here any more
    store2.refresh_region(&region_v8);
    assert!(store2.region_status(1).is_none());

    // re-evaluating the message now answers region-not-found
    assert_eq!(store2.check_message(&current), CheckOutcome::RegionNotFound);
}

#[test]
fn stale_message_to_live_member_is_stale_epoch() {
    // rejected without mutating local state
    let mut store1 = StoreState::new(1);
    let region = new_region(1, vec![new_peer(1, 1), new_peer(2, 2)], 3, 7);
    store1.install_region(region.clone());
    store1.apply_write(1, b"k".to_vec(), b"v".to_vec());

    let msg = RegionMessage {
        region_id: 1,
        from_peer: new_peer(2, 2),
        to_peer: new_peer(1, 1),
        region_epoch: RegionEpoch { version: 2, conf_ver: 7 },
    };
    assert_eq!(store1.check_message(&msg), CheckOutcome::StaleEpoch);
    assert_eq!(store1.get(1, &b"k".to_vec()), Some(b"v".to_vec()));
    assert!(store1.region_status(1).is_some());
}

#[test]
fn unknown_region_is_region_not_found() {
    let mut store1 = StoreState::new(1);
    let msg = RegionMessage {
        region_id: 99,
        from_peer: new_peer(1, 1),
        to_peer: new_peer(2, 1),
        region_epoch: RegionEpoch { version: 1, conf_ver: 1 },
    };
    assert_eq!(store1.check_message(&msg), CheckOutcome::RegionNotFound);
    assert!(store1.region_status(99).is_none());
}

#[test]
fn matching_epoch_is_accepted() {
    let mut store1 = StoreState::new(1);
    let region = new_region(1, vec![new_peer(1, 1)], 4, 2);
    store1.install_region(region.clone());
    let msg = RegionMessage {
        region_id: 1,
        from_peer: new_peer(9, 9),
        to_peer: new_peer(1, 1),
        region_epoch: RegionEpoch { version: 4, conf_ver: 2 },
    };
    assert_eq!(store1.check_message(&msg), CheckOutcome::Accept);
}

#[test]
fn rebootstrap_clears_tombstone() {
    let mut store2 = StoreState::new(2);
    let region = new_region(1, vec![new_peer(1, 1), new_peer(2, 2)], 1, 1);
    store2.install_region(region.clone());
    store2.apply_conf_change(1, ConfChangeType::RemoveNode, new_peer(2, 2));
    assert!(store2.region_status(1).is_none());

    // explicit re-bootstrap with a fresh replica is the one way back
    let newer = new_region(1, vec![new_peer(1, 1), new_peer(4, 2)], 1, 3);
    store2.install_region(newer.clone());
    assert!(store2.region_status(1).is_some());
    let msg = RegionMessage {
        region_id: 1,
        from_peer: new_peer(1, 1),
        to_peer: new_peer(4, 2),
        region_epoch: RegionEpoch { version: 1, conf_ver: 3 },
    };
    assert_eq!(store2.check_message(&msg), CheckOutcome::Accept);

    // a delayed message addressed to the long-removed peer, stamped with its
    // old epoch, cannot re-destroy the fresh replica: this store is a member
    let delayed = RegionMessage {
        region_id: 1,
        from_peer: new_peer(1, 1),
        to_peer: new_peer(2, 2),
        region_epoch: RegionEpoch { version: 1, conf_ver: 1 },
    };
    assert_eq!(store2.check_message(&delayed), CheckOutcome::StaleEpoch);
    assert!(store2.region_status(1).is_some());
}

#[test]
fn stale_message_to_unknown_peer_mutates_nothing() {
    // a strictly older message addressed to a peer id this store never
    // hosted is rejected as stale; the healthy replica and its data survive
    let mut store2 = StoreState::new(2);
    let region = new_region(1, vec![new_peer(1, 1), new_peer(2, 2)], 1, 3);
    store2.install_region(region.clone());
    store2.apply_write(1, b"k".to_vec(), b"v".to_vec());

    let msg = RegionMessage {
        region_id: 1,
        from_peer: new_peer(1, 1),
        to_peer: new_peer(9, 2),
        region_epoch: RegionEpoch { version: 1, conf_ver: 1 },
    };
    assert_eq!(store2.check_message(&msg), CheckOutcome::StaleEpoch);
    assert_eq!(store2.get(1, &b"k".to_vec()), Some(b"v".to_vec()));
    assert!(store2.region_status(1).is_some());
}

#[test]
fn removed_membership_detected_on_stale_message() {
    // the cached authoritative membership already shows no peer of region 1
    // on this store: a message claiming a conf_ver from before that change
    // proves this store's peer was removed, and the replica retires
    let mut store2 = StoreState::new(2);
    let refreshed = new_region(1, vec![new_peer(1, 1), new_peer(3, 3)], 1, 5);
    store2.install_region(refreshed.clone());

    let msg = RegionMessage {
        region_id: 1,
        from_peer: new_peer(1, 1),
        to_peer: new_peer(2, 2),
        region_epoch: RegionEpoch { version: 1, conf_ver: 4 },
    };
    assert_eq!(store2.check_message(&msg), CheckOutcome::RegionNotFound);
    assert!(store2.region_status(1).is_none());
    assert_eq!(store2.check_message(&msg), CheckOutcome::RegionNotFound);
}

#[test]
fn refresh_keeps_newer_local_knowledge() {
    // a refresh older than the cache changes nothing: epochs never decrease
    let mut store1 = StoreState::new(1);
    let region = new_region(1, vec![new_peer(1, 1)], 5, 6);
    store1.install_region(region.clone());
    let older = new_region(1, vec![new_peer(1, 1), new_peer(2, 2)], 5, 5);
    store1.refresh_region(&older);
    let status = store1.region_status(1).unwrap();
    assert_eq!(status.epoch, RegionEpoch { version: 5, conf_ver: 6 });
    assert_eq!(status.peers.len(), 1);
}
