use pdworker::authority::MemPdClient;
use pdworker::authority::PdClient;
use pdworker::epoch::RegionEpoch;
use pdworker::meta::ConfChangeType;
use pdworker::meta::Peer;
use pdworker::meta::Region;
use pdworker::meta::Store;
use pdworker::task::Task;
use pdworker::text::escape;
use pdworker::text::u64_to_dec;
use pdworker::worker::Runner;

fn new_peer(id: u64, store_id: u64) -> Peer {
    Peer { id, store_id }
}

fn new_region(id: u64, peers: Vec<Peer>, version: u64, conf_ver: u64) -> Region {
    Region::new(id, Vec::new(), Vec::new(), peers, RegionEpoch { version, conf_ver })
}

fn new_store(id: u64, address: &str) -> Store {
    Store { id, address: address.to_string() }
}

#[test]
fn heartbeat_reaches_authority() {
    let mut runner = Runner::new(MemPdClient::new());
    assert_eq!(runner.run(Task::heartbeat(new_store(7, "node-7:20160"))), Ok(()));
    let seen = runner.pd_client.get_store(7).unwrap();
    assert_eq!(seen.id, 7);
    assert_eq!(seen.address, "node-7:20160");
}

#[test]
fn scenario_back_to_back_heartbeats_last_wins() {
    // two heartbeats for the same store enqueued back-to-back: both execute,
    // one after the other, and the last one wins in authority state
    let mut runner = Runner::new(MemPdClient::new());
    let tasks = vec![
        Task::heartbeat(new_store(2, "node-2:20160")),
        Task::heartbeat(new_store(2, "node-2:20161")),
    ];
    runner.run_batch(tasks);
    let seen = runner.pd_client.get_store(2).unwrap();
    assert_eq!(seen.address, "node-2:20161");
}

#[test]
fn failing_call_does_not_stop_the_worker() {
    // fire and forget: a failing authority call is discarded, and the next
    // enqueued task still executes
    let mut runner = Runner::new(MemPdClient::new());
    runner.pd_client.set_failing(true);
    assert!(runner.run(Task::heartbeat(new_store(3, "node-3:20160"))).is_err());
    assert!(runner.pd_client.get_store(3).is_none());

    runner.pd_client.set_failing(false);
    assert_eq!(runner.run(Task::heartbeat(new_store(3, "node-3:20162"))), Ok(()));
    assert_eq!(runner.pd_client.get_store(3).unwrap().address, "node-3:20162");
}

#[test]
fn failing_batch_still_executes_later_tasks() {
    let mut runner = Runner::new(MemPdClient::new());
    runner.pd_client.set_failing(true);
    runner.run_batch(vec![
        Task::heartbeat(new_store(4, "node-4:1")),
        Task::change_peer(
            ConfChangeType::AddNode,
            new_region(1, vec![new_peer(1, 1)], 1, 1),
            new_peer(2, 2),
        ),
    ]);
    assert!(runner.pd_client.get_store(4).is_none());
    runner.pd_client.set_failing(false);
    runner.run_batch(vec![Task::heartbeat(new_store(4, "node-4:2"))]);
    assert_eq!(runner.pd_client.get_store(4).unwrap().address, "node-4:2");
}

#[test]
fn ask_tasks_leave_authority_state_alone() {
    let mut runner = Runner::new(MemPdClient::new());
    assert_eq!(runner.run(Task::heartbeat(new_store(1, "node-1:20160"))), Ok(()));
    let _ = runner.run(Task::change_peer(
        ConfChangeType::RemoveNode,
        new_region(1, vec![new_peer(1, 1), new_peer(2, 2)], 1, 2),
        new_peer(2, 2),
    ));
    let _ = runner.run(Task::split(
        new_region(1, vec![new_peer(1, 1)], 1, 2),
        b"m".to_vec(),
        new_peer(1, 1),
    ));
    assert_eq!(runner.pd_client.get_store(1).unwrap().address, "node-1:20160");
}

#[test]
fn task_snapshot_is_immutable() {
    // enqueuing a task and then mutating the originating state in memory
    // does not change what the task later does
    let mut store = new_store(9, "node-9:20160");
    let task = Task::heartbeat(store.clone());
    store.address = "node-9:9999".to_string();

    let mut region = new_region(5, vec![new_peer(1, 1)], 1, 1);
    let split_task = Task::split(region.clone(), b"k1".to_vec(), new_peer(1, 1));
    region.apply_split(b"zz".to_vec());
    region.add_peer(new_peer(2, 2));

    let mut runner = Runner::new(MemPdClient::new());
    assert_eq!(runner.run(task), Ok(()));
    assert_eq!(runner.pd_client.get_store(9).unwrap().address, "node-9:20160");
    assert_eq!(split_task.describe(), "ask split region 5 with key k1");
}

#[test]
fn describe_change_peer() {
    let task = Task::change_peer(
        ConfChangeType::AddNode,
        new_region(7, vec![new_peer(1, 1)], 1, 1),
        new_peer(2, 2),
    );
    assert_eq!(task.describe(), "ask AddNode for region 7");
    let task = Task::change_peer(
        ConfChangeType::RemoveNode,
        new_region(12, vec![new_peer(1, 1)], 1, 1),
        new_peer(2, 2),
    );
    assert_eq!(task.describe(), "ask RemoveNode for region 12");
}

#[test]
fn describe_split() {
    let task = Task::split(
        new_region(1, vec![new_peer(1, 1)], 1, 1),
        vec![0x61, 0x31, 0x01, 0x0a, 0xff],
        new_peer(1, 1),
    );
    assert_eq!(task.describe(), "ask split region 1 with key a1\\001\\n\\377");
}

#[test]
fn describe_heartbeat() {
    let task = Task::heartbeat(new_store(42, "node-42:20160"));
    assert_eq!(task.describe(), "heartbeat for store 42");
}

#[test]
fn decimal_rendering() {
    assert_eq!(u64_to_dec(0), "0");
    assert_eq!(u64_to_dec(10), "10");
    assert_eq!(u64_to_dec(907), "907");
    assert_eq!(u64_to_dec(u64::MAX), "18446744073709551615");
}

#[test]
fn escape_rendering() {
    assert_eq!(escape(&b"a1".to_vec()), "a1");
    assert_eq!(escape(&vec![0x0a, 0x0d, 0x09]), "\\n\\r\\t");
    assert_eq!(escape(&vec![0x22, 0x5c]), "\\\"\\\\");
    assert_eq!(escape(&vec![0x00, 0x07, 0x7f, 0xff]), "\\000\\007\\177\\377");
    assert_eq!(escape(&Vec::new()), "");
}

#[test]
fn authority_lookup_answers_latest_record() {
    let mut pd = MemPdClient::new();
    assert!(pd.get_region_by_id(1).unwrap().is_none());
    pd.record_region(new_region(1, vec![new_peer(1, 1)], 1, 1));
    pd.record_region(new_region(1, vec![new_peer(1, 1), new_peer(2, 2)], 1, 2));
    let found = pd.get_region_by_id(1).unwrap().unwrap();
    assert_eq!(found.epoch, RegionEpoch { version: 1, conf_ver: 2 });
    assert_eq!(found.peers.len(), 2);
}

#[test]
fn failing_authority_returns_transient_errors() {
    let mut pd = MemPdClient::new();
    pd.set_failing(true);
    assert!(pd.get_region_by_id(1).is_err());
    assert!(pd.put_store(new_store(1, "node-1:20160")).is_err());
    assert!(pd
        .ask_change_peer(new_region(1, vec![new_peer(1, 1)], 1, 1), new_peer(2, 2))
        .is_err());
    assert!(pd
        .ask_split(new_region(1, vec![new_peer(1, 1)], 1, 1), b"k".to_vec(), new_peer(1, 1))
        .is_err());
}
