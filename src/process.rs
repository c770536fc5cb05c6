use std::collections::HashMap;
use vstd::prelude::*;
use crate::bytes::{bytes_le, lemma_lex_total, lemma_lex_trans, lex_le};
use crate::hash::{fingerprint, key_hash};
use crate::store::{
    LockFilter, Statistics, Store, key_of_txn, lookup_status, scan_result, start_view, status_in, values_newest_first,
    writes_newest_first,
};
use crate::txn::{
    add_seeks, MvccTxn, Step, acquire_step, check_status_step, cleanup_step, commit_step, heart_beat_step,
    pessimistic_prewrite_step, pessimistic_rollback_mods, prewrite_step,
};
use crate::types::{
    Error, ErrorView, Lock, LockInfo, LockInfoView, Modify, ModifyView, MvccLock, Mutation, Options,
    TxnStatus, Write, mods_size, mods_view, res_view,
};

verus! {

/// Prewrites of more mutations than this first look whether their key range
/// is empty.
pub const FORWARD_MIN_MUTATIONS_NUM: usize = 12;

/// The most locks that one read phase of lock resolution scans.
pub const RESOLVE_LOCK_BATCH_SIZE: usize = 256;

/// The write size after which lock resolution yields a continuation.
pub const MAX_TXN_WRITE_SIZE: u64 = 32768;

#[derive(Clone, Copy, Debug, PartialEq, Eq, Structural)]
pub enum CommandPri {
    Low,
    Normal,
    High,
}

#[derive(Clone, Copy, Debug, PartialEq, Eq, Structural)]
pub enum IsolationLevel {
    Si,
    Rc,
}

/// The request context shared by every command.
#[derive(Clone, Copy, Debug, PartialEq, Eq, Structural)]
pub struct Context {
    pub region_id: u64,
    pub term: u64,
    pub priority: CommandPri,
    pub not_fill_cache: bool,
    pub isolation_level: IsolationLevel,
}

impl Context {
    pub fn new(region_id: u64) -> (r: Context)
        ensures
            r.region_id == region_id,
            r.term == 0,
            r.priority == CommandPri::Normal,
            !r.not_fill_cache,
            r.isolation_level == IsolationLevel::Si,
    {
        Context { region_id, term: 0, priority: CommandPri::Normal, not_fill_cache: false, isolation_level: IsolationLevel::Si }
    }
}

/// The kind of a command, as the scheduler's counters name it.
#[derive(Clone, Copy, Debug, PartialEq, Eq, Structural)]
pub enum CommandTag {
    Prewrite,
    AcquirePessimisticLock,
    Commit,
    Cleanup,
    Rollback,
    PessimisticRollback,
    ResolveLock,
    ResolveLockLite,
    TxnHeartBeat,
    CheckTxnStatus,
    ScanLock,
    MvccByKey,
    MvccByStartTs,
    Pause,
}

#[derive(Debug)]
pub enum CommandKind {
    Prewrite { mutations: Vec<Mutation>, primary: Vec<u8>, start_ts: u64, options: Options },
    AcquirePessimisticLock { keys: Vec<(Vec<u8>, bool)>, primary: Vec<u8>, start_ts: u64, options: Options },
    Commit { keys: Vec<Vec<u8>>, lock_ts: u64, commit_ts: u64 },
    Cleanup { key: Vec<u8>, start_ts: u64, current_ts: u64 },
    Rollback { keys: Vec<Vec<u8>>, start_ts: u64 },
    PessimisticRollback { keys: Vec<Vec<u8>>, start_ts: u64, for_update_ts: u64 },
    /// Resolves the locks of the transactions in `txn_status`, which maps
    /// start timestamps to commit timestamps (0: roll back).
    ResolveLock { txn_status: HashMap<u64, u64>, scan_key: Option<Vec<u8>>, key_locks: Vec<(Vec<u8>, MvccLock)> },
    ResolveLockLite { start_ts: u64, commit_ts: u64, resolve_keys: Vec<Vec<u8>> },
    TxnHeartBeat { primary_key: Vec<u8>, start_ts: u64, advise_ttl: u64 },
    CheckTxnStatus { primary_key: Vec<u8>, lock_ts: u64, caller_start_ts: u64, current_ts: u64, rollback_if_not_exist: bool },
    ScanLock { max_ts: u64, start_key: Option<Vec<u8>>, limit: usize },
    MvccByKey { key: Vec<u8> },
    MvccByStartTs { start_ts: u64 },
    Pause { duration: u64 },
}

/// A command with its context.
#[derive(Debug)]
pub struct Command {
    pub ctx: Context,
    pub kind: CommandKind,
}

impl Command {
    pub open spec fn readonly_spec(&self) -> bool {
        match self.kind {
            CommandKind::ScanLock { .. } | CommandKind::MvccByKey { .. } | CommandKind::MvccByStartTs { .. } => true,
            CommandKind::ResolveLock { key_locks, .. } => key_locks@.len() == 0,
            _ => false,
        }
    }

    /// Whether the command only reads.
    pub fn readonly(&self) -> (r: bool)
        ensures
            r == self.readonly_spec(),
    {
        match &self.kind {
            CommandKind::ScanLock { .. } | CommandKind::MvccByKey { .. } | CommandKind::MvccByStartTs { .. } => true,
            CommandKind::ResolveLock { key_locks, .. } => key_locks.len() == 0,
            _ => false,
        }
    }

    pub open spec fn tag_spec(&self) -> CommandTag {
        match self.kind {
            CommandKind::Prewrite { .. } => CommandTag::Prewrite,
            CommandKind::AcquirePessimisticLock { .. } => CommandTag::AcquirePessimisticLock,
            CommandKind::Commit { .. } => CommandTag::Commit,
            CommandKind::Cleanup { .. } => CommandTag::Cleanup,
            CommandKind::Rollback { .. } => CommandTag::Rollback,
            CommandKind::PessimisticRollback { .. } => CommandTag::PessimisticRollback,
            CommandKind::ResolveLock { .. } => CommandTag::ResolveLock,
            CommandKind::ResolveLockLite { .. } => CommandTag::ResolveLockLite,
            CommandKind::TxnHeartBeat { .. } => CommandTag::TxnHeartBeat,
            CommandKind::CheckTxnStatus { .. } => CommandTag::CheckTxnStatus,
            CommandKind::ScanLock { .. } => CommandTag::ScanLock,
            CommandKind::MvccByKey { .. } => CommandTag::MvccByKey,
            CommandKind::MvccByStartTs { .. } => CommandTag::MvccByStartTs,
            CommandKind::Pause { .. } => CommandTag::Pause,
        }
    }

    /// The counter name of the command's kind.
    pub fn tag(&self) -> (r: CommandTag)
        ensures
            r == self.tag_spec(),
    {
        match &self.kind {
            CommandKind::Prewrite { .. } => CommandTag::Prewrite,
            CommandKind::AcquirePessimisticLock { .. } => CommandTag::AcquirePessimisticLock,
            CommandKind::Commit { .. } => CommandTag::Commit,
            CommandKind::Cleanup { .. } => CommandTag::Cleanup,
            CommandKind::Rollback { .. } => CommandTag::Rollback,
            CommandKind::PessimisticRollback { .. } => CommandTag::PessimisticRollback,
            CommandKind::ResolveLock { .. } => CommandTag::ResolveLock,
            CommandKind::ResolveLockLite { .. } => CommandTag::ResolveLockLite,
            CommandKind::TxnHeartBeat { .. } => CommandTag::TxnHeartBeat,
            CommandKind::CheckTxnStatus { .. } => CommandTag::CheckTxnStatus,
            CommandKind::ScanLock { .. } => CommandTag::ScanLock,
            CommandKind::MvccByKey { .. } => CommandTag::MvccByKey,
            CommandKind::MvccByStartTs { .. } => CommandTag::MvccByStartTs,
            CommandKind::Pause { .. } => CommandTag::Pause,
        }
    }

    pub open spec fn ts_spec(&self) -> u64 {
        match self.kind {
            CommandKind::Prewrite { start_ts, .. } => start_ts,
            CommandKind::AcquirePessimisticLock { start_ts, .. } => start_ts,
            CommandKind::Commit { lock_ts, .. } => lock_ts,
            CommandKind::Cleanup { start_ts, .. } => start_ts,
            CommandKind::Rollback { start_ts, .. } => start_ts,
            CommandKind::PessimisticRollback { start_ts, .. } => start_ts,
            CommandKind::ResolveLockLite { start_ts, .. } => start_ts,
            CommandKind::TxnHeartBeat { start_ts, .. } => start_ts,
            CommandKind::CheckTxnStatus { lock_ts, .. } => lock_ts,
            CommandKind::MvccByStartTs { start_ts } => start_ts,
            _ => 0,
        }
    }

    /// The start timestamp of the transaction the command works for (0 where none).
    pub fn ts(&self) -> (r: u64)
        ensures
            r == self.ts_spec(),
    {
        match &self.kind {
            CommandKind::Prewrite { start_ts, .. } => *start_ts,
            CommandKind::AcquirePessimisticLock { start_ts, .. } => *start_ts,
            CommandKind::Commit { lock_ts, .. } => *lock_ts,
            CommandKind::Cleanup { start_ts, .. } => *start_ts,
            CommandKind::Rollback { start_ts, .. } => *start_ts,
            CommandKind::PessimisticRollback { start_ts, .. } => *start_ts,
            CommandKind::ResolveLockLite { start_ts, .. } => *start_ts,
            CommandKind::TxnHeartBeat { start_ts, .. } => *start_ts,
            CommandKind::CheckTxnStatus { lock_ts, .. } => *lock_ts,
            CommandKind::MvccByStartTs { start_ts } => *start_ts,
            _ => 0,
        }
    }
}

/// Everything the store knows of one key.
#[derive(Debug)]
pub struct MvccInfo {
    pub lock: Option<MvccLock>,
    pub writes: Vec<(u64, Write)>,
    pub values: Vec<(u64, Vec<u8>)>,
}

/// What a command hands back to its client.
#[derive(Debug)]
pub enum ProcessResult {
    Res,
    MultiRes { results: Vec<Result<(), Error>> },
    MvccKey { mvcc: MvccInfo },
    MvccStartTs { mvcc: Option<(Vec<u8>, MvccInfo)> },
    Locks { locks: Vec<LockInfo> },
    TxnStatus { txn_status: TxnStatus },
    NextCommand { cmd: Command },
    Failed { err: Error },
}

/// A request to the waiter manager to wake the transactions that wait for
/// locks of the transaction `lock_ts`.
#[derive(Debug)]
pub struct WakeUp {
    pub lock_ts: u64,
    pub key_hashes: Option<Vec<u64>>,
    pub commit_ts: u64,
    pub is_pessimistic_txn: bool,
}

/// What a write command produced.
#[derive(Debug)]
pub struct WriteResult {
    pub ctx: Context,
    pub to_be_write: Vec<Modify>,
    pub rows: usize,
    pub pr: ProcessResult,
    /// The lock to wait for, whether it is the first lock, and the wait timeout.
    pub lock_info: Option<(Lock, bool, i64)>,
    /// The wake-ups to hand to the waiter manager.
    pub wake_ups: Vec<WakeUp>,
}

pub open spec fn keys_view(keys: Seq<Vec<u8>>) -> Seq<Seq<u8>> {
    keys.map_values(|k: Vec<u8>| k@)
}

pub open spec fn hashes_of(keys: Seq<Seq<u8>>) -> Seq<u64> {
    keys.map_values(|k: Seq<u8>| key_hash(k))
}

/// The hashes of `keys`.
pub fn gen_key_hashes(keys: &Vec<Vec<u8>>) -> (r: Vec<u64>)
    ensures
        r@ == hashes_of(keys_view(keys@)),
{
    let mut r: Vec<u64> = Vec::new();
    let mut i: usize = 0;
    while i < keys.len()
        invariant
            i <= keys.len(),
            r@ == hashes_of(keys_view(keys@.subrange(0, i as int))),
        decreases keys.len() - i,
    {
        r.push(fingerprint(&keys[i]));
        i = i + 1;
        assert(hashes_of(keys_view(keys@.subrange(0, i as int))) =~= hashes_of(keys_view(keys@.subrange(0, i - 1))).push(key_hash(keys@[i - 1]@)));
    }
    assert(keys@.subrange(0, i as int) =~= keys@);
    r
}

/// The key hashes to wake waiters with: computed only when the waiter
/// manager exists and has waiters.
pub fn gen_key_hashes_if_needed(has_waiter: Option<bool>, keys: &Vec<Vec<u8>>) -> (r: Option<Vec<u64>>)
    ensures
        match r {
            Some(h) => has_waiter == Some(true) && h@ == hashes_of(keys_view(keys@)),
            None => has_waiter != Some(true),
        },
{
    if has_waiter == Some(true) {
        Some(gen_key_hashes(keys))
    } else {
        None
    }
}

/// The wake-ups after a command that may have released the locks of the
/// transaction `lock_ts` on `keys`: one where the waiter manager has waiters,
/// none otherwise.
pub open spec fn wake_ups_spec(has_waiter: Option<bool>, lock_ts: u64, keys: Seq<Seq<u8>>, commit_ts: u64, is_pessimistic_txn: bool, w: Seq<WakeUp>) -> bool {
    if has_waiter == Some(true) {
        &&& w.len() == 1
        &&& w[0].lock_ts == lock_ts
        &&& w[0].key_hashes is Some
        &&& w[0].key_hashes.unwrap()@ == hashes_of(keys)
        &&& w[0].commit_ts == commit_ts
        &&& w[0].is_pessimistic_txn == is_pessimistic_txn
    } else {
        w.len() == 0
    }
}

/// Adds the wake-up for the transaction `lock_ts` when there are waiters.
pub fn wake_up_waiters_if_needed(
    wake_ups: &mut Vec<WakeUp>,
    key_hashes: Option<Vec<u64>>,
    lock_ts: u64,
    commit_ts: u64,
    is_pessimistic_txn: bool,
)
    ensures
        final(wake_ups)@ == (match key_hashes {
            Some(h) => old(wake_ups)@.push(WakeUp { lock_ts, key_hashes: Some(h), commit_ts, is_pessimistic_txn }),
            None => old(wake_ups)@,
        }),
{
    if let Some(h) = key_hashes {
        wake_ups.push(WakeUp { lock_ts, key_hashes: Some(h), commit_ts, is_pessimistic_txn });
    }
}

/// A per-key operation of the commit family.
#[derive(Clone, Copy, Debug, PartialEq, Eq, Structural)]
pub enum KeyOp {
    Commit(u64),
    Rollback,
}

pub open spec fn key_op_step(s: Store, start_ts: u64, k: Seq<u8>, op: KeyOp) -> Step<bool> {
    match op {
        KeyOp::Commit(c) => commit_step(s, start_ts, k, c),
        KeyOp::Rollback => cleanup_step(s, start_ts, k, 0),
    }
}

/// `op` applied to each of `keys` in turn, stopping at the first error; the
/// result is that of the last key.
pub open spec fn keys_fold(s: Store, start_ts: u64, keys: Seq<Seq<u8>>, op: KeyOp) -> Step<bool>
    decreases keys.len(),
{
    if keys.len() == 0 {
        Step { res: Ok(false), mods: seq![], seeks: false }
    } else {
        let p = keys_fold(s, start_ts, keys.drop_last(), op);
        match p.res {
            Err(_) => p,
            Ok(_) => {
                let st = key_op_step(s, start_ts, keys.last(), op);
                Step { res: st.res, mods: p.mods + st.mods, seeks: false }
            },
        }
    }
}

fn run_keys(txn: &mut MvccTxn, store: &Store, keys: &Vec<Vec<u8>>, op: KeyOp, stats: &mut Statistics) -> (r: Result<bool, Error>)
    ensures
        res_view(r) == keys_fold(*store, old(txn).start_ts, keys_view(keys@), op).res,
        r is Ok ==> final(txn).mods() == old(txn).mods() + keys_fold(*store, old(txn).start_ts, keys_view(keys@), op).mods,
        final(txn).start_ts == old(txn).start_ts,
{
    let ghost m0 = txn.mods();
    let mut last = false;
    let mut i: usize = 0;
    assert(keys_view(keys@.subrange(0, 0)) =~= Seq::<Seq<u8>>::empty());
    assert(m0 + Seq::<ModifyView>::empty() =~= m0);
    while i < keys.len()
        invariant
            i <= keys.len(),
            txn.start_ts == old(txn).start_ts,
            keys_fold(*store, txn.start_ts, keys_view(keys@.subrange(0, i as int)), op).res == Ok::<bool, ErrorView>(last),
            txn.mods() == m0 + keys_fold(*store, txn.start_ts, keys_view(keys@.subrange(0, i as int)), op).mods,
        decreases keys.len() - i,
    {
        let ghost pre = keys_view(keys@.subrange(0, i as int));
        let ghost ks = keys_view(keys@.subrange(0, i + 1));
        assert(ks.drop_last() =~= pre);
        assert(ks.last() == keys@[i as int]@);
        let k = keys[i].clone();
        let res = match op {
            KeyOp::Commit(c) => txn.commit(store, k, c, stats),
            KeyOp::Rollback => txn.rollback(store, k, stats),
        };
        i = i + 1;
        match res {
            Ok(b) => {
                last = b;
                assert(txn.mods() =~= m0 + keys_fold(*store, txn.start_ts, ks, op).mods);
            },
            Err(e) => {
                proof {
                    assert(keys_fold(*store, txn.start_ts, ks, op).res == res_view(res));
                    let full = keys_view(keys@);
                    lemma_fold_err_sticks(*store, txn.start_ts, full, i as int, op);
                    assert(full.subrange(0, i as int) =~= ks);
                }
                return Err(e);
            },
        }
    }
    assert(keys_view(keys@.subrange(0, i as int)) =~= keys_view(keys@));
    Ok(last)
}

proof fn lemma_fold_err_sticks(s: Store, start_ts: u64, keys: Seq<Seq<u8>>, i: int, op: KeyOp)
    requires
        0 <= i <= keys.len(),
        keys_fold(s, start_ts, keys.subrange(0, i), op).res is Err,
    ensures
        keys_fold(s, start_ts, keys, op).res == keys_fold(s, start_ts, keys.subrange(0, i), op).res,
    decreases keys.len() - i,
{
    if i < keys.len() {
        assert(keys.subrange(0, i + 1).drop_last() =~= keys.subrange(0, i));
        lemma_fold_err_sticks(s, start_ts, keys, i + 1, op);
    } else {
        assert(keys.subrange(0, i) =~= keys);
    }
}

/// `r` is a successful write of `mods` over `rows` rows, with no lock to wait for.
pub open spec fn write_done(r: Result<WriteResult, Error>, ctx: Context, mods: Seq<ModifyView>, rows: int) -> bool {
    &&& r is Ok
    &&& r->Ok_0.ctx == ctx
    &&& mods_view(r->Ok_0.to_be_write@) == mods
    &&& r->Ok_0.rows == rows
    &&& r->Ok_0.lock_info is None
}

pub open spec fn failed_with(r: Result<WriteResult, Error>, e: ErrorView) -> bool {
    r is Err && r->Err_0@ == e
}

pub open spec fn wake_commit_ts(op: KeyOp) -> u64 {
    match op {
        KeyOp::Commit(c) => c,
        KeyOp::Rollback => 0,
    }
}

/// `op` on each key of `keys` for the transaction `start_ts`; the result is
/// the committed status where `status_result`, else `Res`.
pub open spec fn keys_cmd_spec(
    s: Store,
    ctx: Context,
    keys: Seq<Vec<u8>>,
    start_ts: u64,
    op: KeyOp,
    status_result: bool,
    has_waiter: Option<bool>,
    r: Result<WriteResult, Error>,
) -> bool {
    let f = keys_fold(s, start_ts, keys_view(keys), op);
    match f.res {
        Err(e) => failed_with(r, e),
        Ok(p) => {
            &&& write_done(r, ctx, f.mods, keys.len() as int)
            &&& (if status_result {
                r->Ok_0.pr == (ProcessResult::TxnStatus { txn_status: TxnStatus::Committed { commit_ts: wake_commit_ts(op) } })
            } else {
                r->Ok_0.pr is Res
            })
            &&& wake_ups_spec(has_waiter, start_ts, keys_view(keys), wake_commit_ts(op), p, r->Ok_0.wake_ups@)
        },
    }
}

fn process_keys(
    ctx: Context,
    keys: Vec<Vec<u8>>,
    start_ts: u64,
    op: KeyOp,
    status_result: bool,
    store: &Store,
    has_waiter: Option<bool>,
    stats: &mut Statistics,
) -> (r: Result<WriteResult, Error>)
    ensures
        keys_cmd_spec(*store, ctx, keys@, start_ts, op, status_result, has_waiter, r),
{
    let key_hashes = gen_key_hashes_if_needed(has_waiter, &keys);
    let mut txn = MvccTxn::new(start_ts);
    let is_pessimistic_txn = match run_keys(&mut txn, store, &keys, op, stats) {
        Ok(b) => b,
        Err(e) => return Err(e),
    };
    let commit_ts = match op {
        KeyOp::Commit(c) => c,
        KeyOp::Rollback => 0,
    };
    let mut wake_ups: Vec<WakeUp> = Vec::new();
    wake_up_waiters_if_needed(&mut wake_ups, key_hashes, start_ts, commit_ts, is_pessimistic_txn);
    let pr = if status_result {
        ProcessResult::TxnStatus { txn_status: TxnStatus::Committed { commit_ts } }
    } else {
        ProcessResult::Res
    };
    assert(Seq::<ModifyView>::empty() + keys_fold(*store, start_ts, keys_view(keys@), op).mods
        =~= keys_fold(*store, start_ts, keys_view(keys@), op).mods);
    Ok(WriteResult { ctx, to_be_write: txn.into_modifies(), rows: keys.len(), pr, lock_info: None, wake_ups })
}

/// Commit of `keys`, locked at `lock_ts`, at `commit_ts`.
pub open spec fn commit_cmd_spec(
    s: Store,
    ctx: Context,
    keys: Seq<Vec<u8>>,
    lock_ts: u64,
    commit_ts: u64,
    has_waiter: Option<bool>,
    r: Result<WriteResult, Error>,
) -> bool {
    if commit_ts <= lock_ts {
        failed_with(r, ErrorView::InvalidTxnTso { start_ts: lock_ts, commit_ts })
    } else {
        keys_cmd_spec(s, ctx, keys, lock_ts, KeyOp::Commit(commit_ts), true, has_waiter, r)
    }
}

fn process_commit(
    ctx: Context,
    keys: Vec<Vec<u8>>,
    lock_ts: u64,
    commit_ts: u64,
    store: &Store,
    has_waiter: Option<bool>,
    stats: &mut Statistics,
) -> (r: Result<WriteResult, Error>)
    ensures
        commit_cmd_spec(*store, ctx, keys@, lock_ts, commit_ts, has_waiter, r),
{
    if commit_ts <= lock_ts {
        return Err(Error::InvalidTxnTso { start_ts: lock_ts, commit_ts });
    }
    process_keys(ctx, keys, lock_ts, KeyOp::Commit(commit_ts), true, store, has_waiter, stats)
}

/// Cleanup of `key` for the transaction `start_ts` at `current_ts`.
pub open spec fn cleanup_cmd_spec(
    s: Store,
    ctx: Context,
    key: Vec<u8>,
    start_ts: u64,
    current_ts: u64,
    has_waiter: Option<bool>,
    r: Result<WriteResult, Error>,
) -> bool {
    let st = cleanup_step(s, start_ts, key@, current_ts);
    match st.res {
        Err(e) => failed_with(r, e),
        Ok(p) => {
            &&& write_done(r, ctx, st.mods, 1)
            &&& r->Ok_0.pr is Res
            &&& wake_ups_spec(has_waiter, start_ts, seq![key@], 0, p, r->Ok_0.wake_ups@)
        },
    }
}

fn process_cleanup(
    ctx: Context,
    key: Vec<u8>,
    start_ts: u64,
    current_ts: u64,
    store: &Store,
    has_waiter: Option<bool>,
    stats: &mut Statistics,
) -> (r: Result<WriteResult, Error>)
    ensures
        cleanup_cmd_spec(*store, ctx, key, start_ts, current_ts, has_waiter, r),
{
    let keys = vec![key];
    let key_hashes = gen_key_hashes_if_needed(has_waiter, &keys);
    assert(keys_view(keys@) =~= seq![key@]);
    let mut txn = MvccTxn::new(start_ts);
    let k = keys[0].clone();
    let is_pessimistic_txn = match txn.cleanup(store, k, current_ts, stats) {
        Ok(b) => b,
        Err(e) => return Err(e),
    };
    let mut wake_ups: Vec<WakeUp> = Vec::new();
    wake_up_waiters_if_needed(&mut wake_ups, key_hashes, start_ts, 0, is_pessimistic_txn);
    assert(Seq::<ModifyView>::empty() + cleanup_step(*store, start_ts, key@, current_ts).mods
        =~= cleanup_step(*store, start_ts, key@, current_ts).mods);
    Ok(WriteResult { ctx, to_be_write: txn.into_modifies(), rows: 1, pr: ProcessResult::Res, lock_info: None, wake_ups })
}

/// The modifications that remove the pessimistic locks of `keys`.
pub open spec fn pessimistic_rollback_fold(s: Store, start_ts: u64, keys: Seq<Seq<u8>>, for_update_ts: u64) -> Seq<ModifyView>
    decreases keys.len(),
{
    if keys.len() == 0 {
        seq![]
    } else {
        pessimistic_rollback_fold(s, start_ts, keys.drop_last(), for_update_ts)
            + pessimistic_rollback_mods(s, start_ts, keys.last(), for_update_ts)
    }
}

/// Pessimistic rollback of `keys`: it wakes the waiters whether or not any
/// wait, with hashes where some do.
pub open spec fn pessimistic_rollback_cmd_spec(
    s: Store,
    ctx: Context,
    keys: Seq<Vec<u8>>,
    start_ts: u64,
    for_update_ts: u64,
    has_waiter: Option<bool>,
    r: Result<WriteResult, Error>,
) -> bool {
    &&& write_done(r, ctx, pessimistic_rollback_fold(s, start_ts, keys_view(keys), for_update_ts), keys.len() as int)
    &&& r->Ok_0.pr matches ProcessResult::MultiRes { results } && results@.len() == 0
    &&& r->Ok_0.wake_ups@.len() == 1
    &&& r->Ok_0.wake_ups@[0].lock_ts == start_ts
    &&& r->Ok_0.wake_ups@[0].commit_ts == 0
    &&& r->Ok_0.wake_ups@[0].is_pessimistic_txn
    &&& (match r->Ok_0.wake_ups@[0].key_hashes {
        Some(h) => has_waiter == Some(true) && h@ == hashes_of(keys_view(keys)),
        None => has_waiter != Some(true),
    })
}

fn process_pessimistic_rollback(
    ctx: Context,
    keys: Vec<Vec<u8>>,
    start_ts: u64,
    for_update_ts: u64,
    store: &Store,
    has_waiter: Option<bool>,
) -> (r: Result<WriteResult, Error>)
    requires
        has_waiter is Some,
    ensures
        pessimistic_rollback_cmd_spec(*store, ctx, keys@, start_ts, for_update_ts, has_waiter, r),
{
    let key_hashes = gen_key_hashes_if_needed(has_waiter, &keys);
    let mut txn = MvccTxn::new(start_ts);
    let mut i: usize = 0;
    while i < keys.len()
        invariant
            i <= keys.len(),
            txn.start_ts == start_ts,
            txn.mods() == pessimistic_rollback_fold(*store, start_ts, keys_view(keys@.subrange(0, i as int)), for_update_ts),
        decreases keys.len() - i,
    {
        let ghost ks = keys_view(keys@.subrange(0, i + 1));
        assert(ks.drop_last() =~= keys_view(keys@.subrange(0, i as int)));
        txn.pessimistic_rollback(store, keys[i].clone(), for_update_ts);
        i = i + 1;
    }
    assert(keys@.subrange(0, i as int) =~= keys@);
    let mut wake_ups: Vec<WakeUp> = Vec::new();
    wake_ups.push(WakeUp { lock_ts: start_ts, key_hashes, commit_ts: 0, is_pessimistic_txn: true });
    Ok(WriteResult {
        ctx,
        to_be_write: txn.into_modifies(),
        rows: keys.len(),
        pr: ProcessResult::MultiRes { results: Vec::new() },
        lock_info: None,
        wake_ups,
    })
}

/// Heart beat of the transaction `start_ts` at its primary key.
pub open spec fn heart_beat_cmd_spec(
    s: Store,
    ctx: Context,
    primary_key: Vec<u8>,
    start_ts: u64,
    advise_ttl: u64,
    r: Result<WriteResult, Error>,
) -> bool {
    let st = heart_beat_step(s, start_ts, primary_key@, advise_ttl);
    match st.res {
        Err(e) => failed_with(r, e),
        Ok(ttl) => {
            &&& write_done(r, ctx, st.mods, 1)
            &&& r->Ok_0.pr == (ProcessResult::TxnStatus { txn_status: TxnStatus::Uncommitted { lock_ttl: ttl, min_commit_ts: 0 } })
            &&& r->Ok_0.wake_ups@.len() == 0
        },
    }
}

fn process_heart_beat(
    ctx: Context,
    primary_key: Vec<u8>,
    start_ts: u64,
    advise_ttl: u64,
    store: &Store,
) -> (r: Result<WriteResult, Error>)
    ensures
        heart_beat_cmd_spec(*store, ctx, primary_key, start_ts, advise_ttl, r),
{
    let ghost k = primary_key@;
    let mut txn = MvccTxn::new(start_ts);
    let lock_ttl = match txn.txn_heart_beat(store, primary_key, advise_ttl) {
        Ok(t) => t,
        Err(e) => return Err(e),
    };
    assert(Seq::<ModifyView>::empty() + heart_beat_step(*store, start_ts, k, advise_ttl).mods
        =~= heart_beat_step(*store, start_ts, k, advise_ttl).mods);
    Ok(WriteResult {
        ctx,
        to_be_write: txn.into_modifies(),
        rows: 1,
        pr: ProcessResult::TxnStatus { txn_status: TxnStatus::Uncommitted { lock_ttl, min_commit_ts: 0 } },
        lock_info: None,
        wake_ups: Vec::new(),
    })
}

/// Status check of the transaction `lock_ts` at its primary key; waiters are
/// woken only where the lock may have been cleaned up.
pub open spec fn check_status_cmd_spec(
    s: Store,
    ctx: Context,
    primary_key: Vec<u8>,
    lock_ts: u64,
    current_ts: u64,
    rollback_if_not_exist: bool,
    has_waiter: Option<bool>,
    r: Result<WriteResult, Error>,
) -> bool {
    let st = check_status_step(s, lock_ts, primary_key@, current_ts, rollback_if_not_exist);
    match st.res {
        Err(e) => failed_with(r, e),
        Ok((status, p)) => {
            &&& write_done(r, ctx, st.mods, 1)
            &&& r->Ok_0.pr == (ProcessResult::TxnStatus { txn_status: status })
            &&& (if status is TtlExpire || status is LockNotExist {
                wake_ups_spec(has_waiter, lock_ts, seq![primary_key@], 0, p, r->Ok_0.wake_ups@)
            } else {
                r->Ok_0.wake_ups@.len() == 0
            })
        },
    }
}

fn process_check_status(
    ctx: Context,
    primary_key: Vec<u8>,
    lock_ts: u64,
    caller_start_ts: u64,
    current_ts: u64,
    rollback_if_not_exist: bool,
    store: &Store,
    has_waiter: Option<bool>,
    stats: &mut Statistics,
) -> (r: Result<WriteResult, Error>)
    ensures
        check_status_cmd_spec(*store, ctx, primary_key, lock_ts, current_ts, rollback_if_not_exist, has_waiter, r),
{
    let keys = vec![primary_key];
    assert(keys_view(keys@) =~= seq![primary_key@]);
    let mut txn = MvccTxn::new(lock_ts);
    let (status, is_pessimistic_txn) = match txn.check_txn_status(
        store,
        keys[0].clone(),
        caller_start_ts,
        current_ts,
        rollback_if_not_exist,
        stats,
    ) {
        Ok(x) => x,
        Err(e) => return Err(e),
    };
    let mut wake_ups: Vec<WakeUp> = Vec::new();
    match status {
        TxnStatus::TtlExpire | TxnStatus::LockNotExist => {
            let key_hashes = gen_key_hashes_if_needed(has_waiter, &keys);
            wake_up_waiters_if_needed(&mut wake_ups, key_hashes, lock_ts, 0, is_pessimistic_txn);
        },
        _ => {},
    }
    let ghost st = check_status_step(*store, lock_ts, primary_key@, current_ts, rollback_if_not_exist);
    assert(Seq::<ModifyView>::empty() + st.mods =~= st.mods);
    Ok(WriteResult {
        ctx,
        to_be_write: txn.into_modifies(),
        rows: 1,
        pr: ProcessResult::TxnStatus { txn_status: status },
        lock_info: None,
        wake_ups,
    })
}

/// The lock the waiter manager knows for a `KeyIsLocked` result.
pub open spec fn lock_of_info(info: LockInfoView) -> Lock {
    Lock { ts: info.lock_version, hash: key_hash(info.key) }
}

/// The waiter-manager lock of a `KeyIsLocked` result; any other result is a
/// caller's error.
pub fn extract_lock_from_result(res: &Result<(), Error>) -> (r: Lock)
    requires
        res matches Err(Error::KeyIsLocked(_)),
    ensures
        match res {
            Err(Error::KeyIsLocked(info)) => r == lock_of_info(info@),
            _ => false,
        },
{
    match res {
        Err(Error::KeyIsLocked(info)) => Lock { ts: info.lock_version, hash: fingerprint(&info.key) },
        // Any other result is left out by the precondition.
        _ => Lock { ts: 0, hash: 0 },
    }
}

/// The results list holds one `KeyIsLocked` error for each of `locks`, in order.
pub open spec fn results_are_locks(results: Seq<Result<(), Error>>, locks: Seq<LockInfoView>) -> bool {
    &&& results.len() == locks.len()
    &&& forall|i: int| 0 <= i < results.len() ==> (#[trigger] results[i] matches Err(Error::KeyIsLocked(info)) && info@ == locks[i])
}

/// How far a batch of prewrites got: the locks met so far, or the error that
/// stopped it; and the modifications of the keys that succeeded.
pub struct PrewriteAcc {
    pub res: Result<Seq<LockInfoView>, ErrorView>,
    pub mods: Seq<ModifyView>,
    /// How many of the steps taken sought the write column family.
    pub seeks: nat,
}

pub open spec fn prewrite_one(s: Store, start_ts: u64, m: Mutation, primary: Seq<u8>, pessimistic: bool, flag: bool, o: Options) -> Step<()> {
    if pessimistic {
        pessimistic_prewrite_step(s, start_ts, m, primary, flag, o)
    } else {
        prewrite_step(s, start_ts, m, primary, o)
    }
}

/// Prewrite of each mutation in turn: a `KeyIsLocked` is collected and the
/// batch goes on; any other error stops it.
pub open spec fn prewrite_fold(
    s: Store,
    start_ts: u64,
    muts: Seq<Mutation>,
    primary: Seq<u8>,
    pessimistic: bool,
    flags: Seq<bool>,
    o: Options,
) -> PrewriteAcc
    decreases muts.len(),
{
    if muts.len() == 0 {
        PrewriteAcc { res: Ok(seq![]), mods: seq![], seeks: 0 }
    } else {
        let p = prewrite_fold(s, start_ts, muts.drop_last(), primary, pessimistic, flags, o);
        match p.res {
            Err(_) => p,
            Ok(locks) => {
                let st = prewrite_one(s, start_ts, muts.last(), primary, pessimistic, flags[muts.len() - 1], o);
                let seeks = p.seeks + if st.seeks { 1nat } else { 0nat };
                match st.res {
                    Ok(_) => PrewriteAcc { res: Ok(locks), mods: p.mods + st.mods, seeks },
                    Err(ErrorView::KeyIsLocked(info)) => PrewriteAcc { res: Ok(locks.push(info)), mods: p.mods, seeks },
                    Err(e) => PrewriteAcc { res: Err(e), mods: p.mods, seeks },
                }
            },
        }
    }
}

/// The write column family holds no record of a key that lies between two
/// keys of `muts`.
pub open spec fn range_is_empty(s: Store, muts: Seq<Mutation>) -> bool {
    forall|i: int, j: int, k: Seq<u8>, c: u64|
        #![trigger muts[i], muts[j], s.write_of(k, c)]
        0 <= i < muts.len() && 0 <= j < muts.len() && lex_le(muts[i].key_view(), k) && lex_le(k, muts[j].key_view())
            ==> s.write_of(k, c) is None
}

/// The order in which a prewrite takes its mutations: sorted by key where
/// the batch is optimistic and larger than `FORWARD_MIN_MUTATIONS_NUM`.
pub open spec fn prewrite_order(muts: Seq<Mutation>, o: Options) -> Seq<Mutation> {
    if o.for_update_ts == 0 && muts.len() > FORWARD_MIN_MUTATIONS_NUM { sort_by_key(muts) } else { muts }
}

/// Whether an optimistic prewrite of `muts` skips the constraint checks.
pub open spec fn prewrite_fast_path(s: Store, muts: Seq<Mutation>, o: Options) -> bool {
    o.for_update_ts == 0 && muts.len() > FORWARD_MIN_MUTATIONS_NUM && range_is_empty(s, sort_by_key(muts))
}

/// Prewrite of `muts` as primary `primary` at `start_ts`.
pub open spec fn prewrite_cmd_spec(
    s: Store,
    ctx: Context,
    muts: Seq<Mutation>,
    primary: Seq<u8>,
    start_ts: u64,
    o: Options,
    r: Result<WriteResult, Error>,
    seek0: usize,
    seek1: usize,
) -> bool {
    let o2 = if prewrite_fast_path(s, muts, o) { Options { skip_constraint_check: true, ..o } } else { o };
    let f = prewrite_fold(s, start_ts, prewrite_order(muts, o), primary, o.for_update_ts != 0, o.is_pessimistic_lock@, o2);
    let range_checked = o.for_update_ts == 0 && muts.len() > FORWARD_MIN_MUTATIONS_NUM;
    &&& seek1 == add_seeks(seek0, (if range_checked { 1nat } else { 0nat }) + f.seeks)
    &&& match f.res {
        Err(e) => failed_with(r, e),
        Ok(locks) => {
            &&& r is Ok
            &&& r->Ok_0.ctx == ctx
            &&& r->Ok_0.lock_info is None
            &&& r->Ok_0.wake_ups@.len() == 0
            &&& r->Ok_0.pr matches ProcessResult::MultiRes { results } && results_are_locks(results@, locks)
            &&& if locks.len() == 0 {
                mods_view(r->Ok_0.to_be_write@) == f.mods && r->Ok_0.rows == muts.len()
            } else {
                r->Ok_0.to_be_write@.len() == 0 && r->Ok_0.rows == 0
            }
        },
    }
}

/// Where a stable insertion puts key `k` into `s`: right after the last
/// element whose key sorts at or before `k`, scanning from the end.
pub open spec fn ins_pos(s: Seq<Mutation>, k: Seq<u8>) -> int
    decreases s.len(),
{
    if s.len() == 0 {
        0
    } else if lex_le(s.last().key_view(), k) {
        s.len() as int
    } else {
        ins_pos(s.drop_last(), k)
    }
}

proof fn lemma_ins_pos_range(s: Seq<Mutation>, k: Seq<u8>)
    ensures
        0 <= ins_pos(s, k) <= s.len(),
    decreases s.len(),
{
    if s.len() > 0 {
        lemma_ins_pos_range(s.drop_last(), k);
    }
}

/// The mutations in ascending key order, by stable insertion.
pub open spec fn sort_by_key(s: Seq<Mutation>) -> Seq<Mutation>
    decreases s.len(),
{
    if s.len() == 0 {
        seq![]
    } else {
        let p = sort_by_key(s.drop_last());
        p.insert(ins_pos(p, s.last().key_view()), s.last())
    }
}

proof fn lemma_sort_len(s: Seq<Mutation>)
    ensures
        sort_by_key(s).len() == s.len(),
    decreases s.len(),
{
    if s.len() > 0 {
        lemma_sort_len(s.drop_last());
        lemma_ins_pos_range(sort_by_key(s.drop_last()), s.last().key_view());
    }
}

/// The keys of `s` ascend.
pub open spec fn keys_ascend(s: Seq<Mutation>) -> bool {
    forall|i: int, j: int| 0 <= i < j < s.len() ==> lex_le(#[trigger] s[i].key_view(), #[trigger] s[j].key_view())
}

proof fn lemma_ins_pos_splits(s: Seq<Mutation>, k: Seq<u8>)
    requires
        keys_ascend(s),
    ensures
        forall|i: int| 0 <= i < ins_pos(s, k) ==> lex_le(#[trigger] s[i].key_view(), k),
        forall|i: int| ins_pos(s, k) <= i < s.len() ==> lex_le(k, #[trigger] s[i].key_view()),
    decreases s.len(),
{
    if s.len() > 0 {
        let t = s.drop_last();
        let n = s.len() - 1;
        lemma_lex_total(s[n].key_view(), k);
        if lex_le(s[n].key_view(), k) {
            assert forall|i: int| 0 <= i < s.len() implies lex_le(#[trigger] s[i].key_view(), k) by {
                if i < n {
                    lemma_lex_trans(s[i].key_view(), s[n].key_view(), k);
                }
            }
        } else {
            lemma_ins_pos_range(t, k);
            assert(keys_ascend(t)) by {
                assert forall|i: int, j: int| 0 <= i < j < t.len() implies lex_le(#[trigger] t[i].key_view(), #[trigger] t[j].key_view()) by {
                    assert(t[i] == s[i] && t[j] == s[j]);
                }
            }
            lemma_ins_pos_splits(t, k);
            assert forall|i: int| 0 <= i < ins_pos(s, k) implies lex_le(#[trigger] s[i].key_view(), k) by {
                assert(s[i] == t[i]);
            }
            assert forall|i: int| ins_pos(s, k) <= i < s.len() implies lex_le(k, #[trigger] s[i].key_view()) by {
                if i < n {
                    assert(s[i] == t[i]);
                }
            }
        }
    }
}

/// A sorted batch ascends by key.
pub proof fn lemma_sorted_ascends(s: Seq<Mutation>)
    ensures
        keys_ascend(sort_by_key(s)),
    decreases s.len(),
{
    if s.len() > 0 {
        let p = sort_by_key(s.drop_last());
        let k = s.last().key_view();
        lemma_sorted_ascends(s.drop_last());
        lemma_ins_pos_splits(p, k);
        lemma_ins_pos_range(p, k);
        let pos = ins_pos(p, k);
        let q = p.insert(pos, s.last());
        assert forall|i: int, j: int| 0 <= i < j < q.len() implies lex_le(#[trigger] q[i].key_view(), #[trigger] q[j].key_view()) by {
            if j < pos {
                assert(q[i] == p[i] && q[j] == p[j]);
            } else if j == pos {
                assert(q[i] == p[i]);
            } else if i < pos {
                assert(q[i] == p[i] && q[j] == p[j - 1]);
                lemma_lex_trans(p[i].key_view(), k, p[j - 1].key_view());
            } else if i == pos {
                assert(q[j] == p[j - 1]);
            } else {
                assert(q[i] == p[i - 1] && q[j] == p[j - 1]);
            }
        }
    }
}

/// Sorts the mutations by key; mutations of equal keys keep their order.
pub fn sort_mutations(mutations: Vec<Mutation>) -> (r: Vec<Mutation>)
    ensures
        r@ == sort_by_key(mutations@),
{
    let ghost orig = mutations@;
    let mut rest = mutations;
    let mut out: Vec<Mutation> = Vec::new();
    let ghost mut i: int = 0;
    assert(orig.subrange(0, 0) =~= Seq::<Mutation>::empty());
    assert(orig.subrange(0, orig.len() as int) =~= orig);
    while rest.len() > 0
        invariant
            0 <= i <= orig.len(),
            rest@ == orig.subrange(i, orig.len() as int),
            out@ == sort_by_key(orig.subrange(0, i)),
        decreases rest.len(),
    {
        let m = rest.remove(0);
        assert(m == orig[i]);
        let mut j: usize = out.len();
        assert(out@.subrange(0, j as int) =~= out@);
        loop
            invariant
                j <= out.len(),
                ins_pos(out@, m.key_view()) == ins_pos(out@.subrange(0, j as int), m.key_view()),
            ensures
                j <= out.len(),
                ins_pos(out@, m.key_view()) == j,
            decreases j,
        {
            if j == 0 {
                assert(out@.subrange(0, 0) =~= Seq::<Mutation>::empty());
                break;
            }
            if bytes_le(out[j - 1].key(), m.key()) {
                assert(out@.subrange(0, j as int).last() == out@[j - 1]);
                break;
            }
            assert(out@.subrange(0, j as int).drop_last() =~= out@.subrange(0, j - 1));
            j = j - 1;
        }
        proof {
            lemma_ins_pos_range(out@, m.key_view());
            let ghost ss = orig.subrange(0, i + 1);
            assert(ss.drop_last() =~= orig.subrange(0, i));
            assert(ss.last() == m);
        }
        out.insert(j, m);
        proof {
            i = i + 1;
            assert(rest@ =~= orig.subrange(i, orig.len() as int));
        }
    }
    assert(orig.subrange(0, i) =~= orig);
    out
}

/// The indexes of a least and a greatest key of `muts`.
fn key_bounds(muts: &Vec<Mutation>) -> (r: (usize, usize))
    requires
        muts.len() > 0,
    ensures
        r.0 < muts.len(),
        r.1 < muts.len(),
        forall|j: int| 0 <= j < muts.len() ==> lex_le(muts@[r.0 as int].key_view(), #[trigger] muts@[j].key_view()),
        forall|j: int| 0 <= j < muts.len() ==> lex_le(#[trigger] muts@[j].key_view(), muts@[r.1 as int].key_view()),
{
    let mut lo: usize = 0;
    let mut hi: usize = 0;
    let mut i: usize = 1;
    proof {
        lemma_lex_total(muts@[0].key_view(), muts@[0].key_view());
    }
    while i < muts.len()
        invariant
            1 <= i <= muts.len(),
            lo < muts.len(),
            hi < muts.len(),
            forall|j: int| 0 <= j < i ==> lex_le(muts@[lo as int].key_view(), #[trigger] muts@[j].key_view()),
            forall|j: int| 0 <= j < i ==> lex_le(#[trigger] muts@[j].key_view(), muts@[hi as int].key_view()),
        decreases muts.len() - i,
    {
        let ghost ki = muts@[i as int].key_view();
        proof {
            lemma_lex_total(muts@[lo as int].key_view(), ki);
            lemma_lex_total(muts@[hi as int].key_view(), ki);
            lemma_lex_total(ki, ki);
        }
        if !bytes_le(muts[lo].key(), muts[i].key()) {
            proof {
                assert forall|j: int| 0 <= j <= i implies lex_le(ki, #[trigger] muts@[j].key_view()) by {
                    if j < i {
                        lemma_lex_trans(ki, muts@[lo as int].key_view(), muts@[j].key_view());
                    }
                }
            }
            lo = i;
        }
        if !bytes_le(muts[i].key(), muts[hi].key()) {
            proof {
                assert forall|j: int| 0 <= j <= i implies lex_le(#[trigger] muts@[j].key_view(), ki) by {
                    if j < i {
                        lemma_lex_trans(muts@[j].key_view(), muts@[hi as int].key_view(), ki);
                    }
                }
            }
            hi = i;
        }
        i = i + 1;
    }
    (lo, hi)
}

fn process_prewrite(
    ctx: Context,
    mutations: Vec<Mutation>,
    primary: Vec<u8>,
    start_ts: u64,
    options: Options,
    store: &Store,
    stats: &mut Statistics,
) -> (r: Result<WriteResult, Error>)
    requires
        options.for_update_ts != 0 ==> options.is_pessimistic_lock@.len() >= mutations@.len(),
    ensures
        prewrite_cmd_spec(*store, ctx, mutations@, primary@, start_ts, options, r, old(stats).write.seek, final(stats).write.seek),
{
    let ghost seek_start = stats.write.seek;
    let ghost o0 = options;
    let mut opts = options;
    let rows = mutations.len();
    let ghost m0 = mutations@;
    let ordered = if opts.for_update_ts == 0 && rows > FORWARD_MIN_MUTATIONS_NUM {
        sort_mutations(mutations)
    } else {
        mutations
    };
    proof {
        lemma_sort_len(m0);
    }
    assert(ordered@ == prewrite_order(m0, o0));
    if opts.for_update_ts == 0 && rows > FORWARD_MIN_MUTATIONS_NUM {
        let (lo, hi) = key_bounds(&ordered);
        let found = store.has_data_in_range(ordered[lo].key(), ordered[hi].key(), stats);
        proof {
            if found {
                let (k, c) = choose|k: Seq<u8>, c: u64| lex_le(ordered@[lo as int].key_view(), k)
                    && lex_le(k, ordered@[hi as int].key_view()) && #[trigger] store.write_of(k, c) is Some;
                assert(!range_is_empty(*store, ordered@));
            } else {
                assert forall|i: int, j: int, k: Seq<u8>, c: u64|
                    #![trigger ordered@[i], ordered@[j], store.write_of(k, c)]
                    0 <= i < ordered@.len() && 0 <= j < ordered@.len() && lex_le(ordered@[i].key_view(), k)
                        && lex_le(k, ordered@[j].key_view()) implies store.write_of(k, c) is None by {
                    lemma_lex_trans(ordered@[lo as int].key_view(), ordered@[i].key_view(), k);
                    lemma_lex_trans(k, ordered@[j].key_view(), ordered@[hi as int].key_view());
                }
            }
        }
        if !found {
            opts.skip_constraint_check = true;
        }
    }
    let ghost seek_mid = stats.write.seek;
    proof {
        crate::txn::lemma_add_seeks(seek_start, 0, 0);
        assert(seek_mid == add_seeks(seek_start, if o0.for_update_ts == 0 && m0.len() > FORWARD_MIN_MUTATIONS_NUM { 1nat } else { 0nat }));
    }
    let ghost o2 = opts;
    assert(o2 == (if prewrite_fast_path(*store, m0, o0) { Options { skip_constraint_check: true, ..o0 } } else { o0 }));
    let pessimistic = opts.for_update_ts != 0;
    let ghost flags = opts.is_pessimistic_lock@;
    let mut txn = MvccTxn::new(start_ts);
    let mut locks: Vec<Result<(), Error>> = Vec::new();
    let ghost mut lv: Seq<LockInfoView> = seq![];
    let mut i: usize = 0;
    while i < ordered.len()
        invariant
            i <= ordered.len(),
            txn.start_ts == start_ts,
            opts == o2,
            o0 == options,
            o2 == (if prewrite_fast_path(*store, m0, o0) { Options { skip_constraint_check: true, ..o0 } } else { o0 }),
            pessimistic == (o2.for_update_ts != 0),
            flags == o2.is_pessimistic_lock@,
            pessimistic ==> flags.len() >= ordered@.len(),
            ordered@ == prewrite_order(m0, o0),
            m0 == mutations@,
            rows == m0.len(),
            prewrite_fold(*store, start_ts, ordered@.subrange(0, i as int), primary@, pessimistic, flags, o2).res == Ok::<Seq<LockInfoView>, ErrorView>(lv),
            prewrite_fold(*store, start_ts, ordered@.subrange(0, i as int), primary@, pessimistic, flags, o2).mods == txn.mods(),
            results_are_locks(locks@, lv),
            seek_start == old(stats).write.seek,
            seek_mid == add_seeks(seek_start, if o0.for_update_ts == 0 && m0.len() > FORWARD_MIN_MUTATIONS_NUM { 1nat } else { 0nat }),
            stats.write.seek == add_seeks(seek_mid,
                prewrite_fold(*store, start_ts, ordered@.subrange(0, i as int), primary@, pessimistic, flags, o2).seeks),
        decreases ordered.len() - i,
    {
        let ghost ms = ordered@.subrange(0, i + 1);
        assert(ms.drop_last() =~= ordered@.subrange(0, i as int));
        assert(ms.last() == ordered@[i as int]);
        let ghost mb = txn.mods();
        let ghost sb = stats.write.seek;
        proof {
            crate::txn::lemma_add_seeks(seek_mid, prewrite_fold(*store, start_ts, ms.drop_last(), primary@, pessimistic, flags, o2).seeks, 1);
            crate::txn::lemma_add_seeks(sb, 0, 0);
            crate::txn::lemma_add_seeks(seek_start, 0, 1);
            crate::txn::lemma_add_seeks(seek_start, 1, prewrite_fold(*store, start_ts, ms.drop_last(), primary@, pessimistic, flags, o2).seeks + 1);
        }
        let res = if pessimistic {
            txn.pessimistic_prewrite(store, &ordered[i], &primary, opts.is_pessimistic_lock[i], &opts, stats)
        } else {
            txn.prewrite(store, &ordered[i], &primary, &opts, stats)
        };
        i = i + 1;
        match res {
            Ok(_) => {},
            Err(e) => {
                let is_locked = match &e {
                    Error::KeyIsLocked(_) => true,
                    _ => false,
                };
                if is_locked {
                    proof {
                        assert(txn.mods() =~= mb + Seq::<ModifyView>::empty());
                        lv = lv.push(e->KeyIsLocked_0@);
                    }
                    locks.push(Err(e));
                } else {
                    proof {
                        assert(ordered@.subrange(0, i as int) =~= ms);
                        assert(prewrite_fold(*store, start_ts, ms, primary@, pessimistic, flags, o2).res == Err::<Seq<LockInfoView>, ErrorView>(e@));
                        lemma_prewrite_err_sticks(*store, start_ts, ordered@, primary@, pessimistic, flags, o2, i as int);
                        assert(stats.write.seek == add_seeks(seek_mid, prewrite_fold(*store, start_ts, ms, primary@, pessimistic, flags, o2).seeks));
                        crate::txn::lemma_add_seeks(seek_start, if o0.for_update_ts == 0 && m0.len() > FORWARD_MIN_MUTATIONS_NUM { 1nat } else { 0nat },
                            prewrite_fold(*store, start_ts, ms, primary@, pessimistic, flags, o2).seeks);
                        assert(pessimistic == (o0.for_update_ts != 0));
                        assert(flags == o0.is_pessimistic_lock@);
                        let f = prewrite_fold(*store, start_ts, prewrite_order(m0, o0), primary@, o0.for_update_ts != 0, o0.is_pessimistic_lock@, o2);
                        assert(f == prewrite_fold(*store, start_ts, ms, primary@, pessimistic, flags, o2));
                        assert(stats.write.seek == add_seeks(seek_start, (if o0.for_update_ts == 0 && m0.len() > FORWARD_MIN_MUTATIONS_NUM { 1nat } else { 0nat }) + f.seeks));
                    }
                    return Err(e);
                }
            },
        }
    }
    assert(ordered@.subrange(0, i as int) =~= ordered@);
    proof {
        crate::txn::lemma_add_seeks(seek_start, if o0.for_update_ts == 0 && m0.len() > FORWARD_MIN_MUTATIONS_NUM { 1nat } else { 0nat },
            prewrite_fold(*store, start_ts, ordered@, primary@, pessimistic, flags, o2).seeks);
    }
    if locks.len() == 0 {
        Ok(WriteResult {
            ctx,
            to_be_write: txn.into_modifies(),
            rows,
            pr: ProcessResult::MultiRes { results: locks },
            lock_info: None,
            wake_ups: Vec::new(),
        })
    } else {
        Ok(WriteResult {
            ctx,
            to_be_write: Vec::new(),
            rows: 0,
            pr: ProcessResult::MultiRes { results: locks },
            lock_info: None,
            wake_ups: Vec::new(),
        })
    }
}

proof fn lemma_prewrite_err_sticks(
    s: Store,
    start_ts: u64,
    muts: Seq<Mutation>,
    primary: Seq<u8>,
    pessimistic: bool,
    flags: Seq<bool>,
    o: Options,
    i: int,
)
    requires
        0 <= i <= muts.len(),
        prewrite_fold(s, start_ts, muts.subrange(0, i), primary, pessimistic, flags, o).res is Err,
    ensures
        prewrite_fold(s, start_ts, muts, primary, pessimistic, flags, o)
            == prewrite_fold(s, start_ts, muts.subrange(0, i), primary, pessimistic, flags, o),
    decreases muts.len() - i,
{
    if i < muts.len() {
        assert(muts.subrange(0, i + 1).drop_last() =~= muts.subrange(0, i));
        lemma_prewrite_err_sticks(s, start_ts, muts, primary, pessimistic, flags, o, i + 1);
    } else {
        assert(muts.subrange(0, i) =~= muts);
    }
}

pub open spec fn lock_keys_view(keys: Seq<(Vec<u8>, bool)>) -> Seq<(Seq<u8>, bool)> {
    keys.map_values(|p: (Vec<u8>, bool)| (p.0@, p.1))
}

/// How far pessimistic lock acquisition got: the first lock met, or the error
/// that stopped it; and the modifications of the keys locked.
pub struct AcquireAcc {
    pub res: Result<Option<LockInfoView>, ErrorView>,
    pub mods: Seq<ModifyView>,
}

/// Pessimistic locking of each key in turn, stopping at the first lock met
/// or the first other error.
pub open spec fn acquire_fold(s: Store, start_ts: u64, keys: Seq<(Seq<u8>, bool)>, primary: Seq<u8>, o: Options) -> AcquireAcc
    decreases keys.len(),
{
    if keys.len() == 0 {
        AcquireAcc { res: Ok(None), mods: seq![] }
    } else {
        let p = acquire_fold(s, start_ts, keys.drop_last(), primary, o);
        match p.res {
            Ok(None) => {
                let st = acquire_step(s, start_ts, keys.last().0, primary, keys.last().1, o);
                match st.res {
                    Ok(_) => AcquireAcc { res: Ok(None), mods: p.mods + st.mods },
                    Err(ErrorView::KeyIsLocked(info)) => AcquireAcc { res: Ok(Some(info)), mods: p.mods },
                    Err(e) => AcquireAcc { res: Err(e), mods: p.mods },
                }
            },
            _ => p,
        }
    }
}

/// Pessimistic locking of `keys`: on the first lock met nothing is written
/// and the command waits for that lock.
pub open spec fn acquire_cmd_spec(
    s: Store,
    ctx: Context,
    keys: Seq<(Vec<u8>, bool)>,
    primary: Seq<u8>,
    start_ts: u64,
    o: Options,
    r: Result<WriteResult, Error>,
) -> bool {
    let f = acquire_fold(s, start_ts, lock_keys_view(keys), primary, o);
    match f.res {
        Err(e) => failed_with(r, e),
        Ok(None) => {
            &&& write_done(r, ctx, f.mods, keys.len() as int)
            &&& r->Ok_0.pr matches ProcessResult::MultiRes { results } && results@.len() == 0
            &&& r->Ok_0.wake_ups@.len() == 0
        },
        Ok(Some(info)) => {
            &&& r is Ok
            &&& r->Ok_0.ctx == ctx
            &&& r->Ok_0.to_be_write@.len() == 0
            &&& r->Ok_0.rows == 0
            &&& r->Ok_0.pr matches ProcessResult::MultiRes { results } && results_are_locks(results@, seq![info])
            &&& r->Ok_0.lock_info == Some((lock_of_info(info), o.is_first_lock, o.wait_timeout))
            &&& r->Ok_0.wake_ups@.len() == 0
        },
    }
}

fn process_acquire(
    ctx: Context,
    keys: Vec<(Vec<u8>, bool)>,
    primary: Vec<u8>,
    start_ts: u64,
    options: Options,
    store: &Store,
    stats: &mut Statistics,
) -> (r: Result<WriteResult, Error>)
    ensures
        acquire_cmd_spec(*store, ctx, keys@, primary@, start_ts, options, r),
{
    let mut txn = MvccTxn::new(start_ts);
    let mut locks: Vec<Result<(), Error>> = Vec::new();
    let mut i: usize = 0;
    assert(Seq::<ModifyView>::empty() =~= txn.mods());
    while i < keys.len()
        invariant
            i <= keys.len(),
            txn.start_ts == start_ts,
            acquire_fold(*store, start_ts, lock_keys_view(keys@.subrange(0, i as int)), primary@, options).res == Ok::<Option<LockInfoView>, ErrorView>(None),
            acquire_fold(*store, start_ts, lock_keys_view(keys@.subrange(0, i as int)), primary@, options).mods == txn.mods(),
            locks@.len() == 0,
        decreases keys.len() - i,
    {
        let ghost ks = lock_keys_view(keys@.subrange(0, i + 1));
        assert(ks.drop_last() =~= lock_keys_view(keys@.subrange(0, i as int)));
        assert(ks.last() == (keys@[i as int].0@, keys@[i as int].1));
        let res = txn.acquire_pessimistic_lock(store, keys[i].0.clone(), &primary, keys[i].1, &options, stats);
        i = i + 1;
        match res {
            Ok(_) => {},
            Err(e) => {
                let is_locked = match &e {
                    Error::KeyIsLocked(_) => true,
                    _ => false,
                };
                proof {
                    lemma_acquire_stops(*store, start_ts, lock_keys_view(keys@), primary@, options, i as int);
                    assert(lock_keys_view(keys@).subrange(0, i as int) =~= ks);
                }
                if is_locked {
                    locks.push(Err(e));
                    let lock = extract_lock_from_result(&locks[0]);
                    let lock_info = Some((lock, options.is_first_lock, options.wait_timeout));
                    return Ok(WriteResult {
                        ctx,
                        to_be_write: Vec::new(),
                        rows: 0,
                        pr: ProcessResult::MultiRes { results: locks },
                        lock_info,
                        wake_ups: Vec::new(),
                    });
                }
                return Err(e);
            },
        }
    }
    assert(keys@.subrange(0, i as int) =~= keys@);
    Ok(WriteResult {
        ctx,
        to_be_write: txn.into_modifies(),
        rows: keys.len(),
        pr: ProcessResult::MultiRes { results: locks },
        lock_info: None,
        wake_ups: Vec::new(),
    })
}

proof fn lemma_acquire_stops(s: Store, start_ts: u64, keys: Seq<(Seq<u8>, bool)>, primary: Seq<u8>, o: Options, i: int)
    requires
        0 <= i <= keys.len(),
        !(acquire_fold(s, start_ts, keys.subrange(0, i), primary, o).res matches Ok(None)),
    ensures
        acquire_fold(s, start_ts, keys, primary, o).res == acquire_fold(s, start_ts, keys.subrange(0, i), primary, o).res,
    decreases keys.len() - i,
{
    if i < keys.len() {
        assert(keys.subrange(0, i + 1).drop_last() =~= keys.subrange(0, i));
        lemma_acquire_stops(s, start_ts, keys, primary, o, i + 1);
    } else {
        assert(keys.subrange(0, i) =~= keys);
    }
}

pub open spec fn key_locks_view(kl: Seq<(Vec<u8>, MvccLock)>) -> Seq<(Seq<u8>, crate::types::LockView)> {
    kl.map_values(|p: (Vec<u8>, MvccLock)| (p.0@, p.1@))
}

/// Resolving one lock: commit at the transaction's commit timestamp, or roll
/// back where that is 0.
pub open spec fn resolve_one(s: Store, status: Map<u64, u64>, k: Seq<u8>, l: crate::types::LockView) -> Step<bool> {
    let c = status_in(status, l.ts).unwrap();
    if c != 0 {
        if l.ts >= c {
            Step { res: Err(ErrorView::InvalidTxnTso { start_ts: l.ts, commit_ts: c }), mods: seq![], seeks: false }
        } else {
            commit_step(s, l.ts, k, c)
        }
    } else {
        cleanup_step(s, l.ts, k, 0)
    }
}

/// How far lock resolution got: the error that stopped it, the
/// modifications, their size, the key it broke off at, and how many locks it
/// resolved.
pub struct ResolveAcc {
    pub res: Result<(), ErrorView>,
    pub mods: Seq<ModifyView>,
    pub size: u64,
    pub stop: Option<Seq<u8>>,
    pub done: nat,
}

/// Resolution of each lock in turn, breaking off after the lock at which the
/// write size reaches `MAX_TXN_WRITE_SIZE`.
pub open spec fn resolve_fold(s: Store, status: Map<u64, u64>, kl: Seq<(Seq<u8>, crate::types::LockView)>) -> ResolveAcc
    decreases kl.len(),
{
    if kl.len() == 0 {
        ResolveAcc { res: Ok(()), mods: seq![], size: 0, stop: None, done: 0 }
    } else {
        let p = resolve_fold(s, status, kl.drop_last());
        if p.res is Err || p.stop is Some {
            p
        } else {
            let st = resolve_one(s, status, kl.last().0, kl.last().1);
            match st.res {
                Err(e) => ResolveAcc { res: Err(e), ..p },
                Ok(_) => {
                    let size = crate::types::sat((p.size + mods_size(st.mods)) as nat);
                    ResolveAcc {
                        res: Ok(()),
                        mods: p.mods + st.mods,
                        size,
                        stop: if size >= MAX_TXN_WRITE_SIZE { Some(kl.last().0) } else { None },
                        done: p.done + 1,
                    }
                },
            }
        }
    }
}

/// The transactions, with whether each is pessimistic, whose locks are in
/// `kl`, in order of first appearance.
pub open spec fn bucket_keys(kl: Seq<(Seq<u8>, crate::types::LockView)>) -> Seq<(u64, bool)>
    decreases kl.len(),
{
    if kl.len() == 0 {
        seq![]
    } else {
        let b = bucket_keys(kl.drop_last());
        let key = (kl.last().1.ts, kl.last().1.for_update_ts != 0);
        if b.contains(key) { b } else { b.push(key) }
    }
}

/// The hashes of the keys in `kl` locked by the transaction `ts`, pessimistic or not.
pub open spec fn bucket_hashes(kl: Seq<(Seq<u8>, crate::types::LockView)>, ts: u64, pessimistic: bool) -> Seq<u64>
    decreases kl.len(),
{
    if kl.len() == 0 {
        seq![]
    } else {
        let h = bucket_hashes(kl.drop_last(), ts, pessimistic);
        if kl.last().1.ts == ts && (kl.last().1.for_update_ts != 0) == pessimistic {
            h.push(key_hash(kl.last().0))
        } else {
            h
        }
    }
}

/// One wake-up for each transaction whose locks `kl` holds, where the waiter
/// manager has waiters; none otherwise.
pub open spec fn resolve_wake_ups_spec(has_waiter: Option<bool>, kl: Seq<(Seq<u8>, crate::types::LockView)>, w: Seq<WakeUp>) -> bool {
    if has_waiter == Some(true) {
        let b = bucket_keys(kl);
        &&& w.len() == b.len()
        &&& forall|j: int| 0 <= j < w.len() ==> {
            &&& (#[trigger] w[j]).lock_ts == b[j].0
            &&& w[j].is_pessimistic_txn == b[j].1
            &&& w[j].commit_ts == 0
            &&& w[j].key_hashes matches Some(h) && h@ == bucket_hashes(kl, b[j].0, b[j].1)
        }
    } else {
        w.len() == 0
    }
}

/// `cmd` continues lock resolution from `k`.
pub open spec fn next_resolve(cmd: Command, ctx: Context, txn_status: Map<u64, u64>, k: Seq<u8>) -> bool {
    &&& cmd.ctx == ctx
    &&& cmd.kind matches CommandKind::ResolveLock { txn_status: ts2, scan_key: Some(sk), key_locks: kl2 }
        && ts2@ == txn_status && sk@ == k && kl2@.len() == 0
}

/// The write phase of lock resolution: it resolves the locks of
/// `key_locks` and continues from where it broke off, or else from
/// `scan_key`, where the read phase left more locks.
pub open spec fn resolve_cmd_spec(
    s: Store,
    ctx: Context,
    txn_status: Map<u64, u64>,
    scan_key: Option<Seq<u8>>,
    key_locks: Seq<(Vec<u8>, MvccLock)>,
    has_waiter: Option<bool>,
    r: Result<WriteResult, Error>,
) -> bool {
    let kl = key_locks_view(key_locks);
    let f = resolve_fold(s, txn_status, kl);
    match f.res {
        Err(e) => failed_with(r, e),
        Ok(_) => {
            &&& write_done(r, ctx, f.mods, kl.len() as int)
            &&& resolve_wake_ups_spec(has_waiter, kl.subrange(0, f.done as int), r->Ok_0.wake_ups@)
            &&& match (if f.stop is Some { f.stop } else { scan_key }) {
                None => r->Ok_0.pr is Res,
                Some(k) => r->Ok_0.pr matches ProcessResult::NextCommand { cmd } && next_resolve(cmd, ctx, txn_status, k),
            }
        },
    }
}

/// The write size of a batch of modifications.
pub fn batch_size(mods: &Vec<Modify>) -> (r: u64)
    ensures
        r == mods_size(mods_view(mods@)),
{
    let mut total: u64 = 0;
    let mut i: usize = 0;
    while i < mods.len()
        invariant
            i <= mods.len(),
            total == mods_size(mods_view(mods@.subrange(0, i as int))),
        decreases mods.len() - i,
    {
        let ghost ms = mods_view(mods@.subrange(0, i + 1));
        assert(ms.drop_last() =~= mods_view(mods@.subrange(0, i as int)));
        total = total.saturating_add(mods[i].size());
        i = i + 1;
    }
    assert(mods@.subrange(0, i as int) =~= mods@);
    total
}

fn resolve_wake_ups(key_locks: &Vec<(Vec<u8>, MvccLock)>, done: usize) -> (r: Vec<WakeUp>)
    requires
        done <= key_locks.len(),
    ensures
        resolve_wake_ups_spec(Some(true), key_locks_view(key_locks@).subrange(0, done as int), r@),
{
    let ghost kl = key_locks_view(key_locks@).subrange(0, done as int);
    let mut keys: Vec<(u64, bool)> = Vec::new();
    let mut i: usize = 0;
    while i < done
        invariant
            i <= done <= key_locks.len(),
            kl == key_locks_view(key_locks@).subrange(0, done as int),
            keys@ == bucket_keys(kl.subrange(0, i as int)),
        decreases done - i,
    {
        let ghost ks = kl.subrange(0, i + 1);
        assert(ks.drop_last() =~= kl.subrange(0, i as int));
        let key = (key_locks[i].1.ts, key_locks[i].1.for_update_ts != 0);
        let mut j: usize = 0;
        let mut found = false;
        while j < keys.len()
            invariant
                j <= keys.len(),
                found == keys@.subrange(0, j as int).contains(key),
            decreases keys.len() - j,
        {
            if keys[j].0 == key.0 && keys[j].1 == key.1 {
                found = true;
            }
            proof {
                let a = keys@.subrange(0, j + 1);
                assert(a =~= keys@.subrange(0, j as int).push(keys@[j as int]));
                if a.contains(key) && !keys@.subrange(0, j as int).contains(key) {
                    let t = choose|t: int| 0 <= t < a.len() && a[t] == key;
                    assert(t == j);
                }
                if keys@.subrange(0, j as int).contains(key) {
                    let t = choose|t: int| 0 <= t < j && keys@.subrange(0, j as int)[t] == key;
                    assert(a[t] == key);
                }
                if keys@[j as int] == key {
                    assert(a[j as int] == key);
                }
            }
            j = j + 1;
        }
        assert(keys@.subrange(0, j as int) =~= keys@);
        if !found {
            keys.push(key);
        }
        i = i + 1;
    }
    assert(kl.subrange(0, i as int) =~= kl);
    let mut out: Vec<WakeUp> = Vec::new();
    let mut b: usize = 0;
    while b < keys.len()
        invariant
            b <= keys.len(),
            done <= key_locks.len(),
            kl == key_locks_view(key_locks@).subrange(0, done as int),
            keys@ == bucket_keys(kl),
            out@.len() == b,
            forall|j: int| 0 <= j < b ==> {
                &&& (#[trigger] out@[j]).lock_ts == keys@[j].0
                &&& out@[j].is_pessimistic_txn == keys@[j].1
                &&& out@[j].commit_ts == 0
                &&& out@[j].key_hashes matches Some(h) && h@ == bucket_hashes(kl, keys@[j].0, keys@[j].1)
            },
        decreases keys.len() - b,
    {
        let (ts, pessimistic) = keys[b];
        let mut hashes: Vec<u64> = Vec::new();
        let mut m: usize = 0;
        while m < done
            invariant
                m <= done <= key_locks.len(),
                kl == key_locks_view(key_locks@).subrange(0, done as int),
                hashes@ == bucket_hashes(kl.subrange(0, m as int), ts, pessimistic),
            decreases done - m,
        {
            let ghost ks = kl.subrange(0, m + 1);
            assert(ks.drop_last() =~= kl.subrange(0, m as int));
            if key_locks[m].1.ts == ts && (key_locks[m].1.for_update_ts != 0) == pessimistic {
                hashes.push(fingerprint(&key_locks[m].0));
            }
            m = m + 1;
        }
        assert(kl.subrange(0, m as int) =~= kl);
        out.push(WakeUp { lock_ts: ts, key_hashes: Some(hashes), commit_ts: 0, is_pessimistic_txn: pessimistic });
        b = b + 1;
    }
    out
}

fn process_resolve(
    ctx: Context,
    txn_status: HashMap<u64, u64>,
    scan_key: Option<Vec<u8>>,
    key_locks: Vec<(Vec<u8>, MvccLock)>,
    store: &Store,
    has_waiter: Option<bool>,
    stats: &mut Statistics,
) -> (r: Result<WriteResult, Error>)
    requires
        forall|i: int| 0 <= i < key_locks@.len() ==> status_in(txn_status@, (#[trigger] key_locks@[i]).1.ts) is Some,
    ensures
        resolve_cmd_spec(*store, ctx, txn_status@, crate::store::start_view(scan_key), key_locks@, has_waiter, r),
{
    let ghost kl = key_locks_view(key_locks@);
    let mut modifies: Vec<Modify> = Vec::new();
    let mut write_size: u64 = 0;
    let mut stop_key: Option<Vec<u8>> = None;
    let mut i: usize = 0;
    while i < key_locks.len()
        invariant_except_break
            resolve_fold(*store, txn_status@, kl.subrange(0, i as int)).stop is None,
            stop_key is None,
        invariant
            i <= key_locks.len(),
            kl == key_locks_view(key_locks@),
            forall|i: int| 0 <= i < key_locks@.len() ==> status_in(txn_status@, (#[trigger] key_locks@[i]).1.ts) is Some,
            resolve_fold(*store, txn_status@, kl.subrange(0, i as int)).res == Ok::<(), ErrorView>(()),
            resolve_fold(*store, txn_status@, kl.subrange(0, i as int)).mods == mods_view(modifies@),
            resolve_fold(*store, txn_status@, kl.subrange(0, i as int)).size == write_size,
            resolve_fold(*store, txn_status@, kl.subrange(0, i as int)).done == i,
        ensures
            match stop_key {
                None => i == key_locks.len() && resolve_fold(*store, txn_status@, kl.subrange(0, i as int)).stop is None,
                Some(k) => resolve_fold(*store, txn_status@, kl) == resolve_fold(*store, txn_status@, kl.subrange(0, i as int))
                    && resolve_fold(*store, txn_status@, kl.subrange(0, i as int)).stop == Some(k@),
            },
        decreases key_locks.len() - i,
    {
        let ghost ks = kl.subrange(0, i + 1);
        assert(ks.drop_last() =~= kl.subrange(0, i as int));
        assert(ks.last() == (key_locks@[i as int].0@, key_locks@[i as int].1@));
        let lock_ts = key_locks[i].1.ts;
        let commit_ts = match lookup_status(&txn_status, lock_ts) {
            Some(c) => c,
            None => 0,
        };
        let mut txn = MvccTxn::new(lock_ts);
        let key = key_locks[i].0.clone();
        let res = if commit_ts != 0 {
            if lock_ts >= commit_ts {
                proof {
                    lemma_resolve_stops(*store, txn_status@, kl, i + 1);
                    assert(kl.subrange(0, i + 1) =~= ks);
                }
                return Err(Error::InvalidTxnTso { start_ts: lock_ts, commit_ts });
            }
            txn.commit(store, key, commit_ts, stats)
        } else {
            txn.rollback(store, key, stats)
        };
        match res {
            Ok(_) => {},
            Err(e) => {
                proof {
                    lemma_resolve_stops(*store, txn_status@, kl, i + 1);
                    assert(kl.subrange(0, i + 1) =~= ks);
                }
                return Err(e);
            },
        }
        let mut batch = txn.into_modifies();
        assert(mods_view(batch@) =~= Seq::<ModifyView>::empty() + mods_view(batch@));
        let size = batch_size(&batch);
        let ghost before = modifies@;
        modifies.append(&mut batch);
        assert(mods_view(modifies@) =~= mods_view(before) + resolve_one(*store, txn_status@, ks.last().0, ks.last().1).mods);
        write_size = write_size.saturating_add(size);
        i = i + 1;
        if write_size >= MAX_TXN_WRITE_SIZE {
            stop_key = Some(key_locks[i - 1].0.clone());
            proof {
                lemma_resolve_stops(*store, txn_status@, kl, i as int);
            }
            break;
        }
    }
    proof {
        if stop_key is None {
            assert(kl.subrange(0, i as int) =~= kl);
        }
    }
    let wake_ups = if has_waiter == Some(true) {
        resolve_wake_ups(&key_locks, i)
    } else {
        Vec::new()
    };
    let next = if stop_key.is_some() { stop_key } else { scan_key };
    let pr = match next {
        None => ProcessResult::Res,
        Some(k) => ProcessResult::NextCommand {
            cmd: Command { ctx, kind: CommandKind::ResolveLock { txn_status, scan_key: Some(k), key_locks: Vec::new() } },
        },
    };
    Ok(WriteResult { ctx, to_be_write: modifies, rows: key_locks.len(), pr, lock_info: None, wake_ups })
}

proof fn lemma_resolve_stops(s: Store, status: Map<u64, u64>, kl: Seq<(Seq<u8>, crate::types::LockView)>, i: int)
    requires
        0 <= i <= kl.len(),
        resolve_fold(s, status, kl.subrange(0, i)).res is Err || resolve_fold(s, status, kl.subrange(0, i)).stop is Some,
    ensures
        resolve_fold(s, status, kl) == resolve_fold(s, status, kl.subrange(0, i)),
    decreases kl.len() - i,
{
    if i < kl.len() {
        assert(kl.subrange(0, i + 1).drop_last() =~= kl.subrange(0, i));
        lemma_resolve_stops(s, status, kl, i + 1);
    } else {
        assert(kl.subrange(0, i) =~= kl);
    }
}

/// The command is one of the write path's.
pub open spec fn is_write_kind(k: CommandKind) -> bool {
    !(k is ScanLock || k is MvccByKey || k is MvccByStartTs)
}

/// What the write path may be asked: a write kind, with a waiter manager for
/// pessimistic rollback, a flag for each mutation of a pessimistic prewrite,
/// and a known status for each lock to resolve.
pub open spec fn write_request_ok(cmd: Command, has_waiter: Option<bool>) -> bool {
    &&& is_write_kind(cmd.kind)
    &&& (cmd.kind is PessimisticRollback ==> has_waiter is Some)
    &&& match cmd.kind {
        CommandKind::Prewrite { mutations, options, .. } =>
            options.for_update_ts != 0 ==> options.is_pessimistic_lock@.len() >= mutations@.len(),
        CommandKind::ResolveLock { txn_status, key_locks, .. } =>
            forall|i: int| 0 <= i < key_locks@.len() ==> status_in(txn_status@, (#[trigger] key_locks@[i]).1.ts) is Some,
        _ => true,
    }
}

/// What the write path makes of `cmd` on snapshot `s`.
pub open spec fn write_spec(
    cmd: Command,
    s: Store,
    has_waiter: Option<bool>,
    r: Result<WriteResult, Error>,
    stats0: Statistics,
    stats1: Statistics,
) -> bool {
    let ctx = cmd.ctx;
    match cmd.kind {
        CommandKind::Prewrite { mutations, primary, start_ts, options } =>
            prewrite_cmd_spec(s, ctx, mutations@, primary@, start_ts, options, r, stats0.write.seek, stats1.write.seek),
        CommandKind::AcquirePessimisticLock { keys, primary, start_ts, options } =>
            acquire_cmd_spec(s, ctx, keys@, primary@, start_ts, options, r),
        CommandKind::Commit { keys, lock_ts, commit_ts } =>
            commit_cmd_spec(s, ctx, keys@, lock_ts, commit_ts, has_waiter, r),
        CommandKind::Cleanup { key, start_ts, current_ts } =>
            cleanup_cmd_spec(s, ctx, key, start_ts, current_ts, has_waiter, r),
        CommandKind::Rollback { keys, start_ts } =>
            keys_cmd_spec(s, ctx, keys@, start_ts, KeyOp::Rollback, false, has_waiter, r),
        CommandKind::PessimisticRollback { keys, start_ts, for_update_ts } =>
            pessimistic_rollback_cmd_spec(s, ctx, keys@, start_ts, for_update_ts, has_waiter, r),
        CommandKind::ResolveLock { txn_status, scan_key, key_locks } =>
            resolve_cmd_spec(s, ctx, txn_status@, crate::store::start_view(scan_key), key_locks@, has_waiter, r),
        CommandKind::ResolveLockLite { start_ts, commit_ts, resolve_keys } =>
            keys_cmd_spec(s, ctx, resolve_keys@, start_ts,
                if commit_ts != 0 { KeyOp::Commit(commit_ts) } else { KeyOp::Rollback }, false, has_waiter, r),
        CommandKind::TxnHeartBeat { primary_key, start_ts, advise_ttl } =>
            heart_beat_cmd_spec(s, ctx, primary_key, start_ts, advise_ttl, r),
        CommandKind::CheckTxnStatus { primary_key, lock_ts, current_ts, rollback_if_not_exist, .. } =>
            check_status_cmd_spec(s, ctx, primary_key, lock_ts, current_ts, rollback_if_not_exist, has_waiter, r),
        CommandKind::Pause { .. } => {
            &&& write_done(r, ctx, seq![], 0)
            &&& r->Ok_0.pr is Res
            &&& r->Ok_0.wake_ups@.len() == 0
        },
        _ => false,
    }
}

/// Runs a write command on `snapshot`. `has_waiter` is what the waiter
/// manager answered, `None` where there is none. The sleep of `Pause` is the
/// caller's.
pub fn process_write_impl(cmd: Command, snapshot: &Store, has_waiter: Option<bool>, statistics: &mut Statistics) -> (r: Result<WriteResult, Error>)
    requires
        write_request_ok(cmd, has_waiter),
    ensures
        write_spec(cmd, *snapshot, has_waiter, r, *old(statistics), *final(statistics)),
{
    let ctx = cmd.ctx;
    match cmd.kind {
        CommandKind::Prewrite { mutations, primary, start_ts, options } =>
            process_prewrite(ctx, mutations, primary, start_ts, options, snapshot, statistics),
        CommandKind::AcquirePessimisticLock { keys, primary, start_ts, options } =>
            process_acquire(ctx, keys, primary, start_ts, options, snapshot, statistics),
        CommandKind::Commit { keys, lock_ts, commit_ts } =>
            process_commit(ctx, keys, lock_ts, commit_ts, snapshot, has_waiter, statistics),
        CommandKind::Cleanup { key, start_ts, current_ts } =>
            process_cleanup(ctx, key, start_ts, current_ts, snapshot, has_waiter, statistics),
        CommandKind::Rollback { keys, start_ts } =>
            process_keys(ctx, keys, start_ts, KeyOp::Rollback, false, snapshot, has_waiter, statistics),
        CommandKind::PessimisticRollback { keys, start_ts, for_update_ts } =>
            process_pessimistic_rollback(ctx, keys, start_ts, for_update_ts, snapshot, has_waiter),
        CommandKind::ResolveLock { txn_status, scan_key, key_locks } =>
            process_resolve(ctx, txn_status, scan_key, key_locks, snapshot, has_waiter, statistics),
        CommandKind::ResolveLockLite { start_ts, commit_ts, resolve_keys } => {
            let op = if commit_ts != 0 { KeyOp::Commit(commit_ts) } else { KeyOp::Rollback };
            process_keys(ctx, resolve_keys, start_ts, op, false, snapshot, has_waiter, statistics)
        },
        CommandKind::TxnHeartBeat { primary_key, start_ts, advise_ttl } =>
            process_heart_beat(ctx, primary_key, start_ts, advise_ttl, snapshot),
        CommandKind::CheckTxnStatus { primary_key, lock_ts, caller_start_ts, current_ts, rollback_if_not_exist } =>
            process_check_status(ctx, primary_key, lock_ts, caller_start_ts, current_ts, rollback_if_not_exist, snapshot, has_waiter, statistics),
        CommandKind::Pause { .. } => {
            let r = WriteResult { ctx, to_be_write: Vec::new(), rows: 0, pr: ProcessResult::Res, lock_info: None, wake_ups: Vec::new() };
            assert(mods_view(r.to_be_write@) =~= Seq::<ModifyView>::empty());
            Ok(r)
        },
        // The read kinds are left out by the precondition.
        _ => Err(Error::Engine(String::new())),
    }
}

/// `info` is everything `s` holds of `k`.
pub open spec fn mvcc_info_spec(s: Store, k: Seq<u8>, info: MvccInfo) -> bool {
    &&& match info.lock {
        Some(l) => s.lock_of(k) == Some(l@),
        None => s.lock_of(k) is None,
    }
    &&& writes_newest_first(s, k, info.writes@)
    &&& values_newest_first(s, k, info.values@)
}

/// Gathers the lock, the version records and the values of `key`.
pub fn find_mvcc_infos_by_key(reader: &Store, key: &Vec<u8>, statistics: &mut Statistics) -> (r: MvccInfo)
    ensures
        mvcc_info_spec(*reader, key@, r),
        final(statistics).write.seek == add_seeks(old(statistics).write.seek,
            r.writes@.len() + (if r.writes@.len() > 0 && r.writes@.last().0 == 0 { 0nat } else { 1nat })),
{
    let lock = match reader.load_lock(key) {
        Some(l) => Some(l.duplicate()),
        None => None,
    };
    let writes = reader.scan_writes(key, statistics);
    let values = reader.scan_values_in_default(key);
    MvccInfo { lock, writes, values }
}

/// The lock descriptions correspond one to one to the scanned locks.
pub open spec fn infos_of(out: Seq<(Vec<u8>, MvccLock)>, infos: Seq<LockInfo>) -> bool {
    &&& infos.len() == out.len()
    &&& forall|i: int| 0 <= i < out.len() ==> (#[trigger] infos[i])@ == crate::types::lock_info_of(out[i].0@, out[i].1@)
}

/// What the read path makes of `cmd` on snapshot `s`.
pub open spec fn read_spec(cmd: Command, s: Store, r: ProcessResult) -> bool {
    match cmd.kind {
        CommandKind::MvccByKey { key } => r matches ProcessResult::MvccKey { mvcc } && mvcc_info_spec(s, key@, mvcc),
        CommandKind::MvccByStartTs { start_ts } => r matches ProcessResult::MvccStartTs { mvcc } && match mvcc {
            Some((k, info)) => key_of_txn(s, start_ts, k@)
                && (forall|k2: Seq<u8>| #[trigger] key_of_txn(s, start_ts, k2) ==> crate::bytes::lex_le(k@, k2))
                && mvcc_info_spec(s, k@, info),
            None => forall|k2: Seq<u8>| !#[trigger] key_of_txn(s, start_ts, k2),
        },
        CommandKind::ScanLock { max_ts, start_key, limit } => r matches ProcessResult::Locks { locks }
            && exists|out: Seq<(Vec<u8>, MvccLock)>, rem: bool|
                #[trigger] scan_result(s, LockFilter::MaxTs(max_ts), start_view(start_key), limit, out, rem) && infos_of(out, locks@),
        CommandKind::ResolveLock { txn_status, scan_key, .. } => {
            let f = LockFilter::InStatus(txn_status);
            match r {
                ProcessResult::Res => scan_result(s, f, start_view(scan_key), RESOLVE_LOCK_BATCH_SIZE, seq![], false),
                ProcessResult::NextCommand { cmd: next } => {
                    &&& next.ctx == cmd.ctx
                    &&& next.kind matches CommandKind::ResolveLock { txn_status: ts2, scan_key: sk2, key_locks: kl2 }
                        && ts2 == txn_status && kl2@.len() > 0
                        && scan_result(s, f, start_view(scan_key), RESOLVE_LOCK_BATCH_SIZE, kl2@, kl2@.len() == RESOLVE_LOCK_BATCH_SIZE)
                        && start_view(sk2) == (if kl2@.len() == RESOLVE_LOCK_BATCH_SIZE { Some(kl2@.last().0@) } else { None })
                },
                _ => false,
            }
        },
        _ => false,
    }
}

/// Runs a read command on `snapshot`.
pub fn process_read_impl(cmd: Command, snapshot: &Store, statistics: &mut Statistics) -> (r: Result<ProcessResult, Error>)
    requires
        cmd.kind is MvccByKey || cmd.kind is MvccByStartTs || cmd.kind is ScanLock || cmd.kind is ResolveLock,
    ensures
        r is Ok && read_spec(cmd, *snapshot, r->Ok_0),
{
    let ctx = cmd.ctx;
    let ghost c0 = cmd;
    match cmd.kind {
        CommandKind::MvccByKey { key } => {
            let mvcc = find_mvcc_infos_by_key(snapshot, &key, statistics);
            let r = ProcessResult::MvccKey { mvcc };
            assert(read_spec(c0, *snapshot, r));
            Ok(r)
        },
        CommandKind::MvccByStartTs { start_ts } => match snapshot.seek_ts(start_ts) {
            Some(key) => {
                let info = find_mvcc_infos_by_key(snapshot, &key, statistics);
                let r = ProcessResult::MvccStartTs { mvcc: Some((key, info)) };
                assert(read_spec(c0, *snapshot, r));
                Ok(r)
            },
            None => {
                let r = ProcessResult::MvccStartTs { mvcc: None };
                assert(read_spec(c0, *snapshot, r));
                Ok(r)
            },
        },
        CommandKind::ScanLock { max_ts, start_key, limit } => {
            let f = LockFilter::MaxTs(max_ts);
            let (kv_pairs, rem) = snapshot.scan_locks(&start_key, &f, limit);
            let mut locks: Vec<LockInfo> = Vec::new();
            let mut i: usize = 0;
            while i < kv_pairs.len()
                invariant
                    i <= kv_pairs.len(),
                    infos_of(kv_pairs@.subrange(0, i as int), locks@),
                decreases kv_pairs.len() - i,
            {
                locks.push(crate::types::make_lock_info(&kv_pairs[i].0, &kv_pairs[i].1));
                i = i + 1;
            }
            assert(kv_pairs@.subrange(0, i as int) =~= kv_pairs@);
            assert(infos_of(kv_pairs@, locks@));
            assert(scan_result(*snapshot, f, start_view(start_key), limit, kv_pairs@, rem));
            let r = ProcessResult::Locks { locks };
            assert(read_spec(c0, *snapshot, r));
            Ok(r)
        },
        CommandKind::ResolveLock { txn_status, scan_key, .. } => {
            let f = LockFilter::InStatus(txn_status);
            let (kv_pairs, has_remain) = snapshot.scan_locks(&scan_key, &f, RESOLVE_LOCK_BATCH_SIZE);
            let txn_status = match f {
                LockFilter::InStatus(t) => t,
                _ => HashMap::new(),
            };
            if kv_pairs.len() == 0 {
                assert(kv_pairs@ =~= Seq::<(Vec<u8>, MvccLock)>::empty());
                assert(!has_remain);
                assert(read_spec(c0, *snapshot, ProcessResult::Res));
                Ok(ProcessResult::Res)
            } else {
                let next_scan_key = if has_remain {
                    Some(kv_pairs[kv_pairs.len() - 1].0.clone())
                } else {
                    None
                };
                assert(scan_result(*snapshot, f, start_view(scan_key), RESOLVE_LOCK_BATCH_SIZE, kv_pairs@, has_remain));
                assert(start_view(next_scan_key) == (if has_remain { Some(kv_pairs@.last().0@) } else { None::<Seq<u8>> }));
                let r = ProcessResult::NextCommand {
                    cmd: Command {
                        ctx,
                        kind: CommandKind::ResolveLock { txn_status, scan_key: next_scan_key, key_locks: kv_pairs },
                    },
                };
                assert(read_spec(c0, *snapshot, r));
                Ok(r)
            }
        },
        // The write kinds are left out by the precondition.
        _ => Ok(ProcessResult::Res),
    }
}

} // verus!
