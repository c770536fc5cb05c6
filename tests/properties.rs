use txn_process::executor::{Msg, PendingWrite, Task, WriteStep, write_step};
use txn_process::process::{
    Command, CommandKind, CommandTag, Context, ProcessResult, WriteResult, MAX_TXN_WRITE_SIZE, RESOLVE_LOCK_BATCH_SIZE,
    process_read_impl, process_write_impl,
};
use txn_process::store::{Statistics, Store};
use txn_process::types::{Error, LockType, Mutation, Options, TxnStatus, Write, WriteType};

fn run_write(store: &Store, kind: CommandKind, has_waiter: Option<bool>) -> Result<WriteResult, Error> {
    let mut stats = Statistics::new();
    process_write_impl(Command { ctx: Context::new(1), kind }, store, has_waiter, &mut stats)
}

fn run_read(store: &Store, kind: CommandKind) -> ProcessResult {
    let mut stats = Statistics::new();
    process_read_impl(Command { ctx: Context::new(1), kind }, store, &mut stats).unwrap()
}

fn apply(store: &mut Store, kind: CommandKind) -> WriteResult {
    let mut r = run_write(store, kind, Some(false)).unwrap();
    let mods = std::mem::take(&mut r.to_be_write);
    store.write_batch(mods);
    r
}

fn put(k: &[u8], v: &[u8]) -> Mutation {
    Mutation::Put(k.to_vec(), v.to_vec())
}

fn prewrite_kind(muts: Vec<Mutation>, primary: &[u8], start_ts: u64) -> CommandKind {
    CommandKind::Prewrite { mutations: muts, primary: primary.to_vec(), start_ts, options: Options::default() }
}

fn commit_kind(keys: Vec<Vec<u8>>, lock_ts: u64, commit_ts: u64) -> CommandKind {
    CommandKind::Commit { keys, lock_ts, commit_ts }
}

#[test]
fn commit_rejects_commit_ts_not_above_lock_ts() {
    let store = Store::new();
    for commit_ts in [50u64, 49] {
        match run_write(&store, commit_kind(vec![b"k".to_vec()], 50, commit_ts), None) {
            Err(Error::InvalidTxnTso { start_ts, commit_ts: c }) => {
                assert_eq!(start_ts, 50);
                assert_eq!(c, commit_ts);
            },
            other => panic!("unexpected {:?}", other),
        }
    }
}

#[test]
fn commit_then_mvcc_by_key_shows_record_and_no_lock() {
    let mut store = Store::new();
    apply(&mut store, prewrite_kind(vec![put(b"a", b"1")], b"a", 10));
    let r = apply(&mut store, commit_kind(vec![b"a".to_vec()], 10, 20));
    match r.pr {
        ProcessResult::TxnStatus { txn_status } => assert_eq!(txn_status, TxnStatus::Committed { commit_ts: 20 }),
        _ => panic!("expected a status"),
    }
    assert_eq!(r.rows, 1);
    match run_read(&store, CommandKind::MvccByKey { key: b"a".to_vec() }) {
        ProcessResult::MvccKey { mvcc } => {
            assert!(mvcc.lock.is_none());
            assert_eq!(mvcc.writes, vec![(20, Write { write_type: WriteType::Put, start_ts: 10 })]);
            assert_eq!(mvcc.values, vec![(10, b"1".to_vec())]);
        },
        _ => panic!("expected mvcc info"),
    }
}

#[test]
fn mvcc_by_key_lists_records_newest_first() {
    let mut store = Store::new();
    apply(&mut store, prewrite_kind(vec![put(b"a", b"1")], b"a", 10));
    apply(&mut store, commit_kind(vec![b"a".to_vec()], 10, 11));
    apply(&mut store, prewrite_kind(vec![put(b"a", b"2")], b"a", 12));
    apply(&mut store, commit_kind(vec![b"a".to_vec()], 12, 13));
    apply(&mut store, prewrite_kind(vec![put(b"a", b"3")], b"a", 14));
    match run_read(&store, CommandKind::MvccByKey { key: b"a".to_vec() }) {
        ProcessResult::MvccKey { mvcc } => {
            let lock = mvcc.lock.unwrap();
            assert_eq!(lock.ts, 14);
            let commits: Vec<u64> = mvcc.writes.iter().map(|w| w.0).collect();
            assert_eq!(commits, vec![13, 11]);
            let starts: Vec<u64> = mvcc.values.iter().map(|v| v.0).collect();
            assert_eq!(starts, vec![14, 12, 10]);
        },
        _ => panic!("expected mvcc info"),
    }
}

#[test]
fn rollback_removes_lock_and_leaves_marker() {
    let mut store = Store::new();
    apply(&mut store, prewrite_kind(vec![put(b"a", b"1"), put(b"b", b"2")], b"a", 30));
    let r = apply(&mut store, CommandKind::Rollback { keys: vec![b"a".to_vec(), b"b".to_vec()], start_ts: 30 });
    assert!(matches!(r.pr, ProcessResult::Res));
    assert_eq!(r.rows, 2);
    for k in [b"a".to_vec(), b"b".to_vec()] {
        assert!(store.load_lock(&k).is_none());
        assert_eq!(store.get_write(&k, 30), Some(Write { write_type: WriteType::Rollback, start_ts: 30 }));
    }
    // A second rollback finds the marker and writes nothing.
    let again = run_write(&store, CommandKind::Rollback { keys: vec![b"a".to_vec()], start_ts: 30 }, None).unwrap();
    assert!(again.to_be_write.is_empty());
}

#[test]
fn prewrite_reports_every_lock_and_writes_nothing() {
    let mut store = Store::new();
    apply(&mut store, prewrite_kind(vec![put(b"a", b"1"), put(b"c", b"3")], b"a", 10));
    let r = run_write(&store, prewrite_kind(vec![put(b"a", b"x"), put(b"b", b"y"), put(b"c", b"z")], b"a", 20), None)
        .unwrap();
    assert!(r.to_be_write.is_empty());
    assert_eq!(r.rows, 0);
    match r.pr {
        ProcessResult::MultiRes { results } => {
            assert_eq!(results.len(), 2);
            let keys: Vec<Vec<u8>> = results
                .iter()
                .map(|e| match e {
                    Err(Error::KeyIsLocked(info)) => {
                        assert_eq!(info.lock_version, 10);
                        assert_eq!(info.primary_lock, b"a".to_vec());
                        info.key.clone()
                    },
                    _ => panic!("expected a lock"),
                })
                .collect();
            assert_eq!(keys, vec![b"a".to_vec(), b"c".to_vec()]);
        },
        _ => panic!("expected results"),
    }
}

#[test]
fn prewrite_success_counts_rows() {
    let store = Store::new();
    let r = run_write(&store, prewrite_kind(vec![put(b"a", b"1"), Mutation::Delete(b"b".to_vec())], b"a", 5), None)
        .unwrap();
    assert_eq!(r.rows, 2);
    // A value and a lock for the put, a lock for the delete.
    assert_eq!(r.to_be_write.len(), 3);
    assert!(r.wake_ups.is_empty());
}

#[test]
fn commit_wakes_waiters_only_when_there_are_some() {
    let mut store = Store::new();
    apply(&mut store, prewrite_kind(vec![put(b"a", b"1")], b"a", 10));
    let with = run_write(&store, commit_kind(vec![b"a".to_vec()], 10, 11), Some(true)).unwrap();
    assert_eq!(with.wake_ups.len(), 1);
    assert_eq!(with.wake_ups[0].lock_ts, 10);
    assert_eq!(with.wake_ups[0].commit_ts, 11);
    assert_eq!(with.wake_ups[0].key_hashes, Some(vec![farmhash::fingerprint64(b"a")]));
    let without = run_write(&store, commit_kind(vec![b"a".to_vec()], 10, 11), Some(false)).unwrap();
    assert!(without.wake_ups.is_empty());
    let none = run_write(&store, commit_kind(vec![b"a".to_vec()], 10, 11), None).unwrap();
    assert!(none.wake_ups.is_empty());
}

#[test]
fn pessimistic_rollback_always_wakes() {
    let mut store = Store::new();
    let opts = Options { for_update_ts: 12, lock_ttl: 100, ..Options::default() };
    apply(
        &mut store,
        CommandKind::AcquirePessimisticLock { keys: vec![(b"a".to_vec(), false)], primary: b"a".to_vec(), start_ts: 10, options: opts },
    );
    assert_eq!(store.load_lock(&b"a".to_vec()).unwrap().lock_type, LockType::Pessimistic);
    let kind = CommandKind::PessimisticRollback { keys: vec![b"a".to_vec()], start_ts: 10, for_update_ts: 12 };
    let r = run_write(&store, kind, Some(false)).unwrap();
    assert_eq!(r.wake_ups.len(), 1);
    assert!(r.wake_ups[0].is_pessimistic_txn);
    assert!(r.wake_ups[0].key_hashes.is_none());
    assert_eq!(r.to_be_write.len(), 1);
}

#[test]
fn pessimistic_lock_conflict_waits_for_first_lock() {
    let mut store = Store::new();
    apply(&mut store, prewrite_kind(vec![put(b"b", b"1")], b"b", 10));
    let opts = Options { for_update_ts: 20, is_first_lock: true, wait_timeout: 300, ..Options::default() };
    let kind = CommandKind::AcquirePessimisticLock {
        keys: vec![(b"a".to_vec(), false), (b"b".to_vec(), false), (b"c".to_vec(), false)],
        primary: b"a".to_vec(),
        start_ts: 20,
        options: opts,
    };
    let r = run_write(&store, kind, None).unwrap();
    assert!(r.to_be_write.is_empty());
    let (lock, first, timeout) = r.lock_info.unwrap();
    assert_eq!(lock.ts, 10);
    assert_eq!(lock.hash, farmhash::fingerprint64(b"b"));
    assert!(first);
    assert_eq!(timeout, 300);
    match write_step(7, 20, CommandTag::AcquirePessimisticLock, Ok(r)) {
        WriteStep::Notify(Msg::WaitForLock { cid, start_ts, .. }) => {
            assert_eq!(cid, 7);
            assert_eq!(start_ts, 20);
        },
        _ => panic!("expected to wait"),
    }
}

#[test]
fn prewrite_insert_on_existing_key_fails() {
    let mut store = Store::new();
    apply(&mut store, prewrite_kind(vec![put(b"a", b"1")], b"a", 10));
    apply(&mut store, commit_kind(vec![b"a".to_vec()], 10, 11));
    let r = run_write(&store, prewrite_kind(vec![Mutation::Insert(b"a".to_vec(), b"2".to_vec())], b"a", 12), None);
    assert!(matches!(r, Err(Error::AlreadyExist { .. })));
    let r = run_write(&store, prewrite_kind(vec![put(b"a", b"2")], b"a", 11), None);
    match r {
        Err(Error::WriteConflict { start_ts, conflict_start_ts, conflict_commit_ts, key }) => {
            assert_eq!((start_ts, conflict_start_ts, conflict_commit_ts), (11, 10, 11));
            assert_eq!(key, b"a".to_vec());
        },
        _ => panic!("expected a write conflict"),
    }
}

#[test]
fn commit_without_lock_is_lock_not_found() {
    let store = Store::new();
    let r = run_write(&store, commit_kind(vec![b"a".to_vec()], 10, 11), None);
    assert!(matches!(r, Err(Error::TxnLockNotFound { start_ts: 10, commit_ts: 11, .. })));
}

#[test]
fn cleanup_of_committed_txn_fails_and_live_lock_blocks() {
    let mut store = Store::new();
    apply(&mut store, prewrite_kind(vec![put(b"a", b"1")], b"a", 10));
    apply(&mut store, commit_kind(vec![b"a".to_vec()], 10, 11));
    let r = run_write(&store, CommandKind::Cleanup { key: b"a".to_vec(), start_ts: 10, current_ts: 0 }, None);
    assert!(matches!(r, Err(Error::Committed { commit_ts: 11 })));
    let opts = Options { lock_ttl: 1000, ..Options::default() };
    let start_ts: u64 = 100 << 18;
    let muts = vec![put(b"b", b"1")];
    apply(&mut store, CommandKind::Prewrite { mutations: muts, primary: b"b".to_vec(), start_ts, options: opts });
    let now: u64 = 200 << 18;
    let r = run_write(&store, CommandKind::Cleanup { key: b"b".to_vec(), start_ts, current_ts: now }, None);
    assert!(matches!(r, Err(Error::KeyIsLocked(_))));
    let later: u64 = 5000 << 18;
    let r = apply(&mut store, CommandKind::Cleanup { key: b"b".to_vec(), start_ts, current_ts: later });
    assert_eq!(r.rows, 1);
    assert!(store.load_lock(&b"b".to_vec()).is_none());
}

#[test]
fn heart_beat_extends_ttl() {
    let mut store = Store::new();
    let opts = Options { lock_ttl: 100, ..Options::default() };
    apply(&mut store, CommandKind::Prewrite { mutations: vec![put(b"p", b"1")], primary: b"p".to_vec(), start_ts: 10, options: opts });
    let r = apply(&mut store, CommandKind::TxnHeartBeat { primary_key: b"p".to_vec(), start_ts: 10, advise_ttl: 500 });
    match r.pr {
        ProcessResult::TxnStatus { txn_status } => {
            assert_eq!(txn_status, TxnStatus::Uncommitted { lock_ttl: 500, min_commit_ts: 0 })
        },
        _ => panic!("expected a status"),
    }
    assert_eq!(store.load_lock(&b"p".to_vec()).unwrap().ttl, 500);
    let r = run_write(&store, CommandKind::TxnHeartBeat { primary_key: b"q".to_vec(), start_ts: 10, advise_ttl: 5 }, None);
    assert!(matches!(r, Err(Error::TxnNotFound { start_ts: 10, .. })));
}

#[test]
fn check_txn_status_outcomes() {
    let mut store = Store::new();
    let start_ts: u64 = 100 << 18;
    let opts = Options { lock_ttl: 10, ..Options::default() };
    apply(&mut store, CommandKind::Prewrite { mutations: vec![put(b"p", b"1")], primary: b"p".to_vec(), start_ts, options: opts });
    let status = |store: &Store, current_ts: u64, rollback: bool| {
        run_write(
            store,
            CommandKind::CheckTxnStatus {
                primary_key: b"p".to_vec(),
                lock_ts: start_ts,
                caller_start_ts: 0,
                current_ts,
                rollback_if_not_exist: rollback,
            },
            Some(true),
        )
    };
    let r = status(&store, 105 << 18, false).unwrap();
    assert!(matches!(r.pr, ProcessResult::TxnStatus { txn_status: TxnStatus::Uncommitted { lock_ttl: 10, .. } }));
    assert!(r.wake_ups.is_empty());
    let r = status(&store, 200 << 18, false).unwrap();
    assert!(matches!(r.pr, ProcessResult::TxnStatus { txn_status: TxnStatus::TtlExpire }));
    assert_eq!(r.wake_ups.len(), 1);
    store.write_batch(r.to_be_write);
    let r = status(&store, 200 << 18, false).unwrap();
    assert!(matches!(r.pr, ProcessResult::TxnStatus { txn_status: TxnStatus::RolledBack }));
    let empty = Store::new();
    assert!(matches!(status(&empty, 1, false), Err(Error::TxnNotFound { .. })));
    let r = status(&empty, 1, true).unwrap();
    assert!(matches!(r.pr, ProcessResult::TxnStatus { txn_status: TxnStatus::LockNotExist }));
    assert_eq!(r.to_be_write.len(), 1);
}

#[test]
fn pessimistic_prewrite_needs_its_lock() {
    let store = Store::new();
    let opts = Options { for_update_ts: 15, is_pessimistic_lock: vec![true], ..Options::default() };
    let kind = CommandKind::Prewrite { mutations: vec![put(b"a", b"1")], primary: b"a".to_vec(), start_ts: 10, options: opts };
    let r = run_write(&store, kind, None);
    assert!(matches!(r, Err(Error::PessimisticLockNotFound { start_ts: 10, .. })));
}

#[test]
fn scan_lock_returns_locks_in_key_order() {
    let mut store = Store::new();
    apply(&mut store, prewrite_kind(vec![put(b"c", b"1")], b"c", 30));
    apply(&mut store, prewrite_kind(vec![put(b"a", b"1")], b"a", 10));
    apply(&mut store, prewrite_kind(vec![put(b"b", b"1")], b"b", 20));
    apply(&mut store, prewrite_kind(vec![put(b"d", b"1")], b"d", 5));
    match run_read(&store, CommandKind::ScanLock { max_ts: 20, start_key: None, limit: 0 }) {
        ProcessResult::Locks { locks } => {
            let keys: Vec<Vec<u8>> = locks.iter().map(|l| l.key.clone()).collect();
            assert_eq!(keys, vec![b"a".to_vec(), b"b".to_vec(), b"d".to_vec()]);
            assert_eq!(locks[0].lock_version, 10);
        },
        _ => panic!("expected locks"),
    }
    match run_read(&store, CommandKind::ScanLock { max_ts: 100, start_key: Some(b"b".to_vec()), limit: 2 }) {
        ProcessResult::Locks { locks } => {
            let keys: Vec<Vec<u8>> = locks.iter().map(|l| l.key.clone()).collect();
            assert_eq!(keys, vec![b"b".to_vec(), b"c".to_vec()]);
        },
        _ => panic!("expected locks"),
    }
}

#[test]
fn mvcc_by_start_ts_finds_least_key() {
    let mut store = Store::new();
    apply(&mut store, prewrite_kind(vec![put(b"m", b"1"), put(b"k", b"2")], b"m", 40));
    apply(&mut store, commit_kind(vec![b"k".to_vec()], 40, 41));
    match run_read(&store, CommandKind::MvccByStartTs { start_ts: 40 }) {
        ProcessResult::MvccStartTs { mvcc: Some((key, info)) } => {
            assert_eq!(key, b"k".to_vec());
            assert_eq!(info.writes.len(), 1);
        },
        _ => panic!("expected a key"),
    }
    assert!(matches!(run_read(&store, CommandKind::MvccByStartTs { start_ts: 99 }), ProcessResult::MvccStartTs { mvcc: None }));
}

#[test]
fn resolve_lock_batches_until_done() {
    let mut store = Store::new();
    let n = 500usize;
    let key_of = |i: usize| {
        let mut k = vec![b'k'; 120];
        k.push((i / 256) as u8);
        k.push((i % 256) as u8);
        k
    };
    let muts: Vec<Mutation> = (0..n).map(|i| put(&key_of(i), b"v")).collect();
    apply(&mut store, prewrite_kind(muts, &key_of(0), 10));
    let mut txn_status = std::collections::HashMap::new();
    txn_status.insert(10u64, 20u64);
    let mut scan_key: Option<Vec<u8>> = None;
    let mut rounds = 0;
    let mut first_round_broke = false;
    loop {
        let read = run_read(&store, CommandKind::ResolveLock { txn_status: txn_status.clone(), scan_key: scan_key.clone(), key_locks: vec![] });
        let cmd = match read {
            ProcessResult::Res => break,
            ProcessResult::NextCommand { cmd } => cmd,
            _ => panic!("unexpected read result"),
        };
        if let CommandKind::ResolveLock { key_locks, .. } = &cmd.kind {
            assert!(key_locks.len() <= RESOLVE_LOCK_BATCH_SIZE);
        }
        let kl_len = match &cmd.kind {
            CommandKind::ResolveLock { key_locks, .. } => key_locks.len(),
            _ => 0,
        };
        let mut stats = Statistics::new();
        let mut r = process_write_impl(cmd, &store, None, &mut stats).unwrap();
        assert_eq!(r.rows, kl_len);
        let size: u64 = r.to_be_write.iter().map(|m| m.size()).sum();
        let mods = std::mem::take(&mut r.to_be_write);
        store.write_batch(mods);
        match r.pr {
            ProcessResult::NextCommand { cmd } => match cmd.kind {
                CommandKind::ResolveLock { scan_key: next, key_locks, .. } => {
                    assert!(key_locks.is_empty());
                    if rounds == 0 {
                        first_round_broke = size >= MAX_TXN_WRITE_SIZE;
                    }
                    scan_key = next;
                },
                _ => panic!("expected resolve lock"),
            },
            ProcessResult::Res => break,
            _ => panic!("unexpected write result"),
        }
        rounds += 1;
        assert!(rounds < 100);
    }
    assert!(first_round_broke);
    assert!(rounds > 1);
    for i in 0..n {
        let k = key_of(i);
        assert!(store.load_lock(&k).is_none());
        assert_eq!(store.get_write(&k, 20), Some(Write { write_type: WriteType::Put, start_ts: 10 }));
    }
}

#[test]
fn task_reads_command() {
    let cmd = Command { ctx: Context::new(9), kind: commit_kind(vec![], 3, 4) };
    let task = Task::new(5, cmd);
    assert_eq!(task.cid, 5);
    assert_eq!(task.tag, CommandTag::Commit);
    assert_eq!(task.ts, 3);
    assert_eq!(task.region_id, 9);
    assert!(!task.cmd().readonly());
}

#[test]
fn write_step_submits_non_empty_batches() {
    let mut store = Store::new();
    let r = run_write(&store, prewrite_kind(vec![put(b"a", b"1")], b"a", 10), None).unwrap();
    match write_step(1, 10, CommandTag::Prewrite, Ok(r)) {
        WriteStep::Submit(p) => {
            let PendingWrite { cid, to_be_write, rows, .. } = p;
            assert_eq!(cid, 1);
            assert_eq!(rows, 1);
            store.write_batch(to_be_write);
        },
        _ => panic!("expected a batch"),
    }
    let r = run_write(&store, CommandKind::Pause { duration: 0 }, None).unwrap();
    assert!(matches!(write_step(2, 0, CommandTag::Pause, Ok(r)), WriteStep::Notify(Msg::WriteFinished { cid: 2, .. })));
    let e = write_step(3, 0, CommandTag::Commit, Err(Error::InvalidTxnTso { start_ts: 1, commit_ts: 1 }));
    assert!(matches!(e, WriteStep::Notify(Msg::FinishedWithErr { cid: 3, .. })));
}

#[test]
fn large_prewrite_sorts_by_key_and_reports_locks_in_order() {
    let mut store = Store::new();
    apply(&mut store, prewrite_kind(vec![put(&[3], b"x"), put(&[9], b"x")], &[3], 10));
    let muts: Vec<Mutation> = (0..14u8).rev().map(|i| put(&[i], b"v")).collect();
    let r = run_write(&store, prewrite_kind(muts, &[0], 20), None).unwrap();
    assert!(r.to_be_write.is_empty());
    match r.pr {
        ProcessResult::MultiRes { results } => {
            let keys: Vec<Vec<u8>> = results
                .iter()
                .map(|e| match e {
                    Err(Error::KeyIsLocked(info)) => info.key.clone(),
                    _ => panic!("expected a lock"),
                })
                .collect();
            assert_eq!(keys, vec![vec![3u8], vec![9u8]]);
        },
        _ => panic!("expected results"),
    }
}

struct Recorder;

impl txn_process::executor::MsgScheduler for Recorder {
    fn on_msg(&self, _msg: Msg) {}
}

struct Waiters(bool);

impl txn_process::executor::LockManager for Waiters {
    fn has_waiter(&self) -> bool {
        self.0
    }

    fn wake_up(&self, _lock_ts: u64, _key_hashes: Option<Vec<u64>>, _commit_ts: u64, _is_pessimistic_txn: bool) {}
}

#[test]
fn executor_read_step_gives_read_finished() {
    let mut store = Store::new();
    apply(&mut store, prewrite_kind(vec![put(b"a", b"1")], b"a", 10));
    let executor = txn_process::executor::Executor::new(Recorder, (), None::<Waiters>);
    let task = Task::new(4, Command { ctx: Context::new(1), kind: CommandKind::MvccByKey { key: b"a".to_vec() } });
    let (_scheduler, msg, _stats) = executor.process_read(&store, task);
    match msg {
        Msg::ReadFinished { cid, pr: ProcessResult::MvccKey { mvcc }, tag } => {
            assert_eq!(cid, 4);
            assert_eq!(tag, CommandTag::MvccByKey);
            assert_eq!(mvcc.lock.unwrap().ts, 10);
        },
        _ => panic!("expected ReadFinished"),
    }
}

#[test]
fn read_finished_turns_error_into_failed() {
    let m = txn_process::executor::read_finished(3, CommandTag::ScanLock, Err(Error::Engine("down".to_string())));
    assert!(matches!(m, Msg::ReadFinished { cid: 3, pr: ProcessResult::Failed { err: Error::Engine(_) }, tag: CommandTag::ScanLock }));
    let m = txn_process::executor::snapshot_failed(8, CommandTag::Commit, Error::Engine("x".to_string()));
    assert!(matches!(m, Msg::FinishedWithErr { cid: 8, tag: CommandTag::Commit, .. }));
}

#[test]
fn executor_write_step_submits_or_notifies() {
    let store = Store::new();
    let executor = txn_process::executor::Executor::new(Recorder, (), Some(Waiters(true)));
    let task = Task::new(11, Command { ctx: Context::new(2), kind: prewrite_kind(vec![put(b"a", b"1")], b"a", 10) });
    let (_scheduler, step, stats) = executor.process_write(&store, task);
    assert_eq!(stats.write.seek, 1);
    match step {
        WriteStep::Submit(p) => {
            assert_eq!(p.cid, 11);
            assert_eq!(p.ctx.region_id, 2);
            assert_eq!(p.rows, 1);
            assert_eq!(p.to_be_write.len(), 2);
        },
        _ => panic!("expected a batch"),
    }
    let executor = txn_process::executor::Executor::new(Recorder, (), None::<Waiters>);
    let task = Task::new(12, Command { ctx: Context::new(2), kind: commit_kind(vec![b"a".to_vec()], 10, 10) });
    let (_scheduler, step, _stats) = executor.process_write(&store, task);
    assert!(matches!(step, WriteStep::Notify(Msg::FinishedWithErr { cid: 12, err: Error::InvalidTxnTso { .. }, .. })));
}

#[test]
fn task_takes_term_where_given() {
    let mut task = Task::new(1, Command { ctx: Context::new(1), kind: CommandKind::Pause { duration: 0 } });
    task.set_term(None);
    assert_eq!(task.cmd.ctx.term, 0);
    task.set_term(Some(7));
    assert_eq!(task.context().term, 7);
}
