//! Properties that hold across the processor's operations.

use vstd::prelude::*;
use crate::process::{
    Command, KeyOp, MAX_TXN_WRITE_SIZE, MvccInfo, ProcessResult, WriteResult, commit_cmd_spec,
    key_locks_view, key_op_step, keys_cmd_spec, keys_fold, keys_view, mvcc_info_spec, next_resolve, prewrite_cmd_spec,
    resolve_cmd_spec, resolve_fold, resolve_one, write_spec,
};
use crate::store::{Store, applied, lock_after, write_after};
use crate::txn::write_type_of;
use crate::types::{Error, LockType, ModifyView, Mutation, Options, Write, WriteType, mods_view};

verus! {

/// A prewrite that reports any lock writes nothing.
pub proof fn law_prewrite_locked_writes_nothing(
    s: Store,
    ctx: crate::process::Context,
    muts: Seq<Mutation>,
    primary: Seq<u8>,
    start_ts: u64,
    o: Options,
    r: Result<WriteResult, Error>,
    seek0: usize,
    seek1: usize,
)
    requires
        prewrite_cmd_spec(s, ctx, muts, primary, start_ts, o, r, seek0, seek1),
        r is Ok,
        r->Ok_0.pr matches ProcessResult::MultiRes { results } && results@.len() > 0,
    ensures
        r->Ok_0.to_be_write@.len() == 0,
        r->Ok_0.rows == 0,
        r->Ok_0.pr matches ProcessResult::MultiRes { results }
            && forall|i: int| 0 <= i < results@.len() ==> (#[trigger] results@[i]) matches Err(Error::KeyIsLocked(_)),
{
}

/// A commit that reports the transaction committed at `commit_ts` had
/// `commit_ts` above the lock's timestamp; otherwise it fails with
/// `InvalidTxnTso`.
pub proof fn law_commit_ts_above_lock_ts(
    s: Store,
    ctx: crate::process::Context,
    keys: Seq<Vec<u8>>,
    lock_ts: u64,
    commit_ts: u64,
    has_waiter: Option<bool>,
    r: Result<WriteResult, Error>,
)
    requires
        commit_cmd_spec(s, ctx, keys, lock_ts, commit_ts, has_waiter, r),
    ensures
        r is Ok ==> commit_ts > lock_ts
            && r->Ok_0.pr == (ProcessResult::TxnStatus { txn_status: crate::types::TxnStatus::Committed { commit_ts } }),
        commit_ts <= lock_ts ==> (r matches Err(Error::InvalidTxnTso { start_ts, commit_ts: c }) && start_ts == lock_ts && c == commit_ts),
{
}

/// The modifications that resolving each lock of `kl` makes, in order.
pub open spec fn resolve_mods(s: Store, status: Map<u64, u64>, kl: Seq<(Seq<u8>, crate::types::LockView)>) -> Seq<ModifyView>
    decreases kl.len(),
{
    if kl.len() == 0 {
        seq![]
    } else {
        resolve_mods(s, status, kl.drop_last()) + resolve_one(s, status, kl.last().0, kl.last().1).mods
    }
}

/// One round of lock resolution resolves a prefix of its locks, the first
/// `done`: all of them, or up to the first lock at which the write size
/// reaches `MAX_TXN_WRITE_SIZE`. The locks before that last one write less
/// than the bound; the round's modifications are those of the prefix; and
/// it continues from the key of the prefix's last lock exactly when the
/// bound was reached.
pub proof fn law_resolve_is_bounded(s: Store, status: Map<u64, u64>, kl: Seq<(Seq<u8>, crate::types::LockView)>)
    ensures
        resolve_fold(s, status, kl).done <= kl.len(),
        resolve_fold(s, status, kl).res is Ok ==> {
            let f = resolve_fold(s, status, kl);
            &&& (f.stop is Some <==> f.size >= MAX_TXN_WRITE_SIZE)
            &&& f == resolve_fold(s, status, kl.subrange(0, f.done as int))
            &&& f.mods == resolve_mods(s, status, kl.subrange(0, f.done as int))
            &&& (f.stop is None ==> f.done == kl.len())
            &&& (f.stop is Some ==> f.done >= 1 && f.stop == Some(kl[f.done - 1].0))
            &&& (f.done > 0 ==> resolve_fold(s, status, kl.subrange(0, f.done - 1)).size < MAX_TXN_WRITE_SIZE)
        },
    decreases kl.len(),
{
    if kl.len() > 0 {
        let t = kl.drop_last();
        let p = resolve_fold(s, status, t);
        law_resolve_is_bounded(s, status, t);
        let f = resolve_fold(s, status, kl);
        if p.res is Err || p.stop is Some {
            if f.res is Ok {
                assert(t.subrange(0, f.done as int) =~= kl.subrange(0, f.done as int));
                if f.done > 0 {
                    assert(t.subrange(0, f.done - 1) =~= kl.subrange(0, f.done - 1));
                    assert(t[f.done - 1] == kl[f.done - 1]);
                }
            }
        } else {
            assert(kl.subrange(0, kl.len() - 1) =~= t);
            assert(kl.subrange(0, kl.len() as int) =~= kl);
            assert(t.subrange(0, t.len() as int) =~= t);
        }
    } else {
        assert(kl.subrange(0, 0) =~= kl);
    }
}

/// A status check reports a lock that it cleaned up, or found missing.
pub open spec fn cleaned_up(pr: ProcessResult) -> bool {
    match pr {
        ProcessResult::TxnStatus { txn_status } => txn_status is TtlExpire || txn_status is LockNotExist,
        _ => false,
    }
}

/// Waiters are woken only where the waiter manager has some, and only by a
/// command that may release locks; pessimistic rollback always wakes once.
/// A command that releases the locks of one transaction, with waiters
/// present, wakes once.
pub proof fn law_wake_up_only_with_waiters(
    cmd: Command,
    s: Store,
    has_waiter: Option<bool>,
    r: Result<WriteResult, Error>,
    stats0: crate::store::Statistics,
    stats1: crate::store::Statistics,
)
    requires
        write_spec(cmd, s, has_waiter, r, stats0, stats1),
        r is Ok,
    ensures
        (r->Ok_0.wake_ups@.len() > 0 && !(cmd.kind is PessimisticRollback)) ==> has_waiter == Some(true),
        (cmd.kind is Prewrite || cmd.kind is AcquirePessimisticLock || cmd.kind is TxnHeartBeat || cmd.kind is Pause)
            ==> r->Ok_0.wake_ups@.len() == 0,
        cmd.kind is PessimisticRollback ==> r->Ok_0.wake_ups@.len() == 1,
        (cmd.kind is Commit || cmd.kind is Rollback || cmd.kind is Cleanup || cmd.kind is ResolveLockLite)
            ==> r->Ok_0.wake_ups@.len() == (if has_waiter == Some(true) { 1int } else { 0int }),
        cmd.kind is CheckTxnStatus ==> r->Ok_0.wake_ups@.len() == (if has_waiter == Some(true) && cleaned_up(r->Ok_0.pr) {
            1int
        } else {
            0int
        }),
{
}

/// `m` sets or deletes the lock of `k`.
pub open spec fn sets_lock(m: ModifyView, k: Seq<u8>) -> bool {
    match m {
        ModifyView::PutLock(k2, _) => k2 == k,
        ModifyView::DeleteLock(k2) => k2 == k,
        _ => false,
    }
}

/// `m` sets or deletes the record of `k` at `c`.
pub open spec fn sets_write(m: ModifyView, k: Seq<u8>, c: u64) -> bool {
    match m {
        ModifyView::PutWrite(k2, c2, _) => k2 == k && c2 == c,
        ModifyView::DeleteWrite(k2, c2) => k2 == k && c2 == c,
        _ => false,
    }
}

/// The lock of `k` is set or deleted somewhere in `m`.
pub open spec fn touches_lock(m: Seq<ModifyView>, k: Seq<u8>) -> bool {
    exists|i: int| 0 <= i < m.len() && #[trigger] sets_lock(m[i], k)
}

/// The record of `k` at `c` is set or deleted somewhere in `m`.
pub open spec fn touches_write(m: Seq<ModifyView>, k: Seq<u8>, c: u64) -> bool {
    exists|i: int| 0 <= i < m.len() && #[trigger] sets_write(m[i], k, c)
}

proof fn lemma_lock_after_concat(s: Store, m1: Seq<ModifyView>, m2: Seq<ModifyView>, k: Seq<u8>)
    ensures
        lock_after(s, m1 + m2, k) == (if touches_lock(m2, k) { lock_after(s, m2, k) } else { lock_after(s, m1, k) }),
        !touches_lock(m2, k) ==> lock_after(s, m2, k) == s.lock_of(k),
    decreases m2.len(),
{
    if m2.len() > 0 {
        let t = m2.drop_last();
        assert((m1 + m2).drop_last() =~= m1 + t);
        assert((m1 + m2).last() == m2.last());
        lemma_lock_after_concat(s, m1, t, k);
        if touches_lock(t, k) {
            let i = choose|i: int| 0 <= i < t.len() && #[trigger] sets_lock(t[i], k);
            assert(m2[i] == t[i]);
        }
        if touches_lock(m2, k) && !touches_lock(t, k) {
            let i = choose|i: int| 0 <= i < m2.len() && #[trigger] sets_lock(m2[i], k);
            if i < t.len() {
                assert(t[i] == m2[i]);
            }
        }
        if !touches_lock(m2, k) {
            assert(!sets_lock(m2[m2.len() - 1], k));
            assert forall|i: int| 0 <= i < t.len() implies !#[trigger] sets_lock(t[i], k) by {
                assert(t[i] == m2[i]);
            }
        }
    } else {
        assert(m1 + m2 =~= m1);
    }
}

proof fn lemma_write_after_concat(s: Store, m1: Seq<ModifyView>, m2: Seq<ModifyView>, k: Seq<u8>, c: u64)
    ensures
        write_after(s, m1 + m2, k, c) == (if touches_write(m2, k, c) { write_after(s, m2, k, c) } else { write_after(s, m1, k, c) }),
        !touches_write(m2, k, c) ==> write_after(s, m2, k, c) == s.write_of(k, c),
    decreases m2.len(),
{
    if m2.len() > 0 {
        let t = m2.drop_last();
        assert((m1 + m2).drop_last() =~= m1 + t);
        assert((m1 + m2).last() == m2.last());
        lemma_write_after_concat(s, m1, t, k, c);
        if touches_write(t, k, c) {
            let i = choose|i: int| 0 <= i < t.len() && #[trigger] sets_write(t[i], k, c);
            assert(m2[i] == t[i]);
        }
        if touches_write(m2, k, c) && !touches_write(t, k, c) {
            let i = choose|i: int| 0 <= i < m2.len() && #[trigger] sets_write(m2[i], k, c);
            if i < t.len() {
                assert(t[i] == m2[i]);
            }
        }
        if !touches_write(m2, k, c) {
            assert(!sets_write(m2[m2.len() - 1], k, c));
            assert forall|i: int| 0 <= i < t.len() implies !#[trigger] sets_write(t[i], k, c) by {
                assert(t[i] == m2[i]);
            }
        }
    } else {
        assert(m1 + m2 =~= m1);
    }
}

/// Every modification of a step on key `k` is a modification of `k`.
pub open spec fn only_key(m: Seq<ModifyView>, k: Seq<u8>) -> bool {
    forall|i: int| 0 <= i < m.len() ==> match #[trigger] m[i] {
        ModifyView::PutLock(k2, _) => k2 == k,
        ModifyView::DeleteLock(k2) => k2 == k,
        ModifyView::PutWrite(k2, _, _) => k2 == k,
        ModifyView::DeleteWrite(k2, _) => k2 == k,
        ModifyView::PutValue(k2, _, _) => k2 == k,
        ModifyView::DeleteValue(k2, _) => k2 == k,
    }
}

proof fn lemma_step_only_key(s: Store, start_ts: u64, k: Seq<u8>, op: KeyOp)
    ensures
        only_key(key_op_step(s, start_ts, k, op).mods, k),
{
}

/// After a batch of `op` over `keys` has succeeded, each key's lock and
/// records are what its own step made of them.
proof fn lemma_fold_lookup(s: Store, start_ts: u64, keys: Seq<Seq<u8>>, op: KeyOp, k: Seq<u8>, c: u64)
    requires
        keys_fold(s, start_ts, keys, op).res is Ok,
    ensures
        lock_after(s, keys_fold(s, start_ts, keys, op).mods, k) == (if keys.contains(k) {
            lock_after(s, key_op_step(s, start_ts, k, op).mods, k)
        } else {
            s.lock_of(k)
        }),
        write_after(s, keys_fold(s, start_ts, keys, op).mods, k, c) == (if keys.contains(k) {
            write_after(s, key_op_step(s, start_ts, k, op).mods, k, c)
        } else {
            s.write_of(k, c)
        }),
    decreases keys.len(),
{
    if keys.len() == 0 {
        assert(!keys.contains(k));
    } else {
        let t = keys.drop_last();
        let kl = keys.last();
        let p = keys_fold(s, start_ts, t, op);
        let st = key_op_step(s, start_ts, kl, op);
        lemma_fold_lookup(s, start_ts, t, op, k, c);
        lemma_lock_after_concat(s, p.mods, st.mods, k);
        lemma_write_after_concat(s, p.mods, st.mods, k, c);
        lemma_lock_after_concat(s, seq![], st.mods, k);
        lemma_write_after_concat(s, seq![], st.mods, k, c);
        lemma_step_only_key(s, start_ts, kl, op);
        assert(keys.contains(k) == (t.contains(k) || kl == k)) by {
            if keys.contains(k) && kl != k {
                let i = choose|i: int| 0 <= i < keys.len() && keys[i] == k;
                assert(t[i] == keys[i]);
            }
            if t.contains(k) {
                let i = choose|i: int| 0 <= i < t.len() && t[i] == k;
                assert(keys[i] == t[i]);
            }
            if kl == k {
                assert(keys[keys.len() - 1] == k);
            }
        }
        if kl != k {
            if touches_lock(st.mods, k) {
                let i = choose|i: int| 0 <= i < st.mods.len() && #[trigger] sets_lock(st.mods[i], k);
            }
            if touches_write(st.mods, k, c) {
                let i = choose|i: int| 0 <= i < st.mods.len() && #[trigger] sets_write(st.mods[i], k, c);
            }
        }
    }
}

/// After a successful commit of `keys` at `commit_ts`, a key that the
/// transaction had locked holds no lock and a version record at `commit_ts`;
/// the key's MVCC information shows exactly that.
pub proof fn law_commit_then_read(
    s: Store,
    ctx: crate::process::Context,
    keys: Seq<Vec<u8>>,
    lock_ts: u64,
    commit_ts: u64,
    has_waiter: Option<bool>,
    r: Result<WriteResult, Error>,
    s2: Store,
    k: Seq<u8>,
    info: MvccInfo,
)
    requires
        commit_cmd_spec(s, ctx, keys, lock_ts, commit_ts, has_waiter, r),
        r is Ok,
        applied(s, mods_view(r->Ok_0.to_be_write@), s2),
        keys_view(keys).contains(k),
        s.lock_of(k) matches Some(l) && l.ts == lock_ts,
        mvcc_info_spec(s2, k, info),
    ensures
        s2.lock_of(k) is None,
        s2.write_of(k, commit_ts) == Some(Write { write_type: write_type_of(s.lock_of(k).unwrap().lock_type), start_ts: lock_ts }),
        info.lock is None,
        exists|i: int| 0 <= i < info.writes@.len() && info.writes@[i].0 == commit_ts,
{
    let op = KeyOp::Commit(commit_ts);
    let ks = keys_view(keys);
    lemma_fold_lookup(s, lock_ts, ks, op, k, commit_ts);
    assert(s2.lock_of(k) == lock_after(s, keys_fold(s, lock_ts, ks, op).mods, k));
    assert(s2.write_of(k, commit_ts) == write_after(s, keys_fold(s, lock_ts, ks, op).mods, k, commit_ts));
    let st = key_op_step(s, lock_ts, k, op);
    if st.res is Err {
        lemma_fold_err_in(s, lock_ts, ks, op, k);
    }
    let m = st.mods;
    assert(m.drop_last().drop_last() =~= Seq::<ModifyView>::empty());
    assert(write_after(s, m, k, commit_ts) == write_after(s, m.drop_last(), k, commit_ts));
    assert(s2.write_of(k, commit_ts) is Some);
}

/// A key of a batch whose step failed makes the batch fail.
proof fn lemma_fold_err_in(s: Store, start_ts: u64, keys: Seq<Seq<u8>>, op: KeyOp, k: Seq<u8>)
    requires
        keys.contains(k),
        key_op_step(s, start_ts, k, op).res is Err,
    ensures
        keys_fold(s, start_ts, keys, op).res is Err,
    decreases keys.len(),
{
    let t = keys.drop_last();
    if keys.last() != k {
        let i = choose|i: int| 0 <= i < keys.len() && keys[i] == k;
        assert(t[i] == keys[i]);
        lemma_fold_err_in(s, start_ts, t, op, k);
    }
}

/// `w` is the rollback record of the transaction `start_ts`.
pub open spec fn is_rollback_of(w: Option<Write>, start_ts: u64) -> bool {
    w == Some(Write { write_type: WriteType::Rollback, start_ts })
}

/// After a successful rollback of `keys` for the transaction `start_ts`, no
/// key of it holds that transaction's lock and each has its rollback record
/// at `start_ts`. Left out: a store that already holds a rollback record of
/// the transaction at another timestamp.
pub proof fn law_rollback_leaves_marker(
    s: Store,
    ctx: crate::process::Context,
    keys: Seq<Vec<u8>>,
    start_ts: u64,
    has_waiter: Option<bool>,
    r: Result<WriteResult, Error>,
    s2: Store,
    k: Seq<u8>,
)
    requires
        keys_cmd_spec(s, ctx, keys, start_ts, KeyOp::Rollback, false, has_waiter, r),
        r is Ok,
        applied(s, mods_view(r->Ok_0.to_be_write@), s2),
        keys_view(keys).contains(k),
        forall|c: u64| #[trigger] is_rollback_of(s.write_of(k, c), start_ts) ==> c == start_ts,
    ensures
        !(s2.lock_of(k) matches Some(l) && l.ts == start_ts),
        s2.write_of(k, start_ts) == Some(Write { write_type: WriteType::Rollback, start_ts }),
{
    let op = KeyOp::Rollback;
    let ks = keys_view(keys);
    let st = key_op_step(s, start_ts, k, op);
    if st.res is Err {
        lemma_fold_err_in(s, start_ts, ks, op, k);
    }
    lemma_fold_lookup(s, start_ts, ks, op, k, start_ts);
    assert(s2.lock_of(k) == lock_after(s, keys_fold(s, start_ts, ks, op).mods, k));
    assert(s2.write_of(k, start_ts) == write_after(s, keys_fold(s, start_ts, ks, op).mods, k, start_ts));
    let m = st.mods;
    match s.lock_of(k) {
        Some(l) if l.ts == start_ts => {
            if l.lock_type == LockType::Put {
                assert(m.drop_last().drop_last().drop_last() =~= Seq::<ModifyView>::empty());
            } else {
                assert(m.drop_last().drop_last() =~= Seq::<ModifyView>::empty());
            }
            assert(lock_after(s, m, k) is None);
            assert(write_after(s, m, k, start_ts) == write_after(s, m.drop_last(), k, start_ts));
            assert(s2.write_of(k, start_ts) == Some(Write { write_type: WriteType::Rollback, start_ts }));
        },
        _ => match s.seek_write_spec(k, u64::MAX, Some(start_ts)) {
            Some((c, w)) => {
                let c1 = choose|c1: u64| s.is_latest_write(k, u64::MAX, Some(start_ts), c1);
                assert(is_rollback_of(s.write_of(k, c1), start_ts));
                lemma_fold_lookup(s, start_ts, ks, op, k, c1);
                assert(m.len() == 0);
                lemma_lock_after_concat(s, seq![], m, k);
                assert(s2.write_of(k, c1) == Some(Write { write_type: WriteType::Rollback, start_ts }));
            },
            None => {
                assert(m.drop_last() =~= Seq::<ModifyView>::empty());
                assert(!touches_lock(m, k)) by {
                    assert forall|i: int| 0 <= i < m.len() implies !#[trigger] sets_lock(m[i], k) by {}
                }
                lemma_lock_after_concat(s, seq![], m, k);
                assert(s2.write_of(k, start_ts) == Some(Write { write_type: WriteType::Rollback, start_ts }));
            },
        },
    }
}

/// `pr` hands back the command that resumes lock resolution from `k`.
pub open spec fn continues_from(pr: ProcessResult, ctx: crate::process::Context, txn_status: Map<u64, u64>, k: Seq<u8>) -> bool {
    match pr {
        ProcessResult::NextCommand { cmd } => next_resolve(cmd, ctx, txn_status, k),
        _ => false,
    }
}

/// The write phase of lock resolution writes the modifications of a prefix
/// of its locks. Where it stops short of the end, the prefix is the shortest
/// one whose write size reaches `MAX_TXN_WRITE_SIZE`, and the command it
/// hands back resumes from the key of the prefix's last lock.
pub proof fn law_resolve_round(
    s: Store,
    ctx: crate::process::Context,
    txn_status: Map<u64, u64>,
    scan_key: Option<Seq<u8>>,
    key_locks: Seq<(Vec<u8>, crate::types::MvccLock)>,
    has_waiter: Option<bool>,
    r: Result<WriteResult, Error>,
)
    requires
        resolve_cmd_spec(s, ctx, txn_status, scan_key, key_locks, has_waiter, r),
        r is Ok,
    ensures
        exists|n: int| {
            &&& 0 <= n <= key_locks_view(key_locks).len()
            &&& mods_view(r->Ok_0.to_be_write@) == #[trigger] resolve_mods(s, txn_status, key_locks_view(key_locks).subrange(0, n))
            &&& (n > 0 ==> resolve_fold(s, txn_status, key_locks_view(key_locks).subrange(0, n - 1)).size < MAX_TXN_WRITE_SIZE)
            &&& (n < key_locks_view(key_locks).len() ==> n >= 1 && resolve_fold(s, txn_status, key_locks_view(key_locks).subrange(0, n)).size >= MAX_TXN_WRITE_SIZE
                && continues_from(r->Ok_0.pr, ctx, txn_status, key_locks_view(key_locks)[n - 1].0))
        },
{
    let kl = key_locks_view(key_locks);
    law_resolve_is_bounded(s, txn_status, kl);
    let f = resolve_fold(s, txn_status, kl);
    let n = f.done as int;
    assert(mods_view(r->Ok_0.to_be_write@) == resolve_mods(s, txn_status, kl.subrange(0, n)));
}

} // verus!
