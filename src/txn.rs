use vstd::prelude::*;
use crate::store::{Statistics, Store};
use crate::types::{
    Error, ErrorView, LockType, LockView, Modify, ModifyView, MvccLock, Mutation, Options, TxnStatus,
    Write, WriteType, lock_info_of, make_lock_info, mods_view, res_view,
};

verus! {

/// What one transaction step does: its result, the modifications it adds,
/// and whether it seeks the write column family.
pub struct Step<T> {
    pub res: Result<T, ErrorView>,
    pub mods: Seq<ModifyView>,
    pub seeks: bool,
}

pub open spec fn bump(n: usize) -> usize {
    if n < usize::MAX { (n + 1) as usize } else { usize::MAX }
}

/// A seek counter `n` after `k` more seeks, saturating.
pub open spec fn add_seeks(n: usize, k: nat) -> usize {
    if n + k < usize::MAX { (n + k) as usize } else { usize::MAX }
}

pub proof fn lemma_add_seeks(n: usize, a: nat, b: nat)
    ensures
        add_seeks(add_seeks(n, a), b) == add_seeks(n, a + b),
        bump(n) == add_seeks(n, 1),
        add_seeks(n, 0) == n,
{
}

pub open spec fn write_type_of(t: LockType) -> WriteType {
    match t {
        LockType::Put => WriteType::Put,
        LockType::Delete => WriteType::Delete,
        _ => WriteType::Lock,
    }
}

/// The physical part, in milliseconds, of a timestamp.
pub open spec fn physical(ts: u64) -> int {
    ts as int / 262144
}

/// A lock has outlived its time to live at `current_ts`.
pub open spec fn lock_expired(l: LockView, current_ts: u64) -> bool {
    physical(l.ts) + l.ttl < physical(current_ts)
}

/// The modifications that prewrite `m` at `start_ts`.
pub open spec fn prewrite_mods(start_ts: u64, m: Mutation, primary: Seq<u8>, o: Options) -> Seq<ModifyView> {
    let k = m.key_view();
    let lock = LockView {
        lock_type: m.lock_type_spec(),
        primary: primary,
        ts: start_ts,
        ttl: o.lock_ttl,
        for_update_ts: o.for_update_ts,
        txn_size: o.txn_size,
    };
    match m.value_view() {
        Some(v) => seq![ModifyView::PutValue(k, start_ts, v), ModifyView::PutLock(k, lock)],
        None => seq![ModifyView::PutLock(k, lock)],
    }
}

/// The modifications that roll back the lock `l` of `k`.
pub open spec fn rollback_lock_mods(start_ts: u64, k: Seq<u8>, l: LockView) -> Seq<ModifyView> {
    let tail = seq![
        ModifyView::PutWrite(k, start_ts, Write { write_type: WriteType::Rollback, start_ts }),
        ModifyView::DeleteLock(k),
    ];
    if l.lock_type == LockType::Put {
        seq![ModifyView::DeleteValue(k, start_ts)] + tail
    } else {
        tail
    }
}

pub open spec fn rollback_record(start_ts: u64, k: Seq<u8>) -> Seq<ModifyView> {
    seq![ModifyView::PutWrite(k, start_ts, Write { write_type: WriteType::Rollback, start_ts })]
}

/// The write-conflict and existence checks of a key that holds no lock.
pub open spec fn constraint_error(s: Store, start_ts: u64, k: Seq<u8>, should_not_exist: bool) -> Option<ErrorView> {
    match s.seek_write_spec(k, u64::MAX, None) {
        Some((c, w)) => if c >= start_ts {
            Some(ErrorView::WriteConflict { start_ts, conflict_start_ts: w.start_ts, conflict_commit_ts: c, key: k })
        } else if should_not_exist && w.write_type == WriteType::Put {
            Some(ErrorView::AlreadyExist { key: k })
        } else {
            None
        },
        None => None,
    }
}

/// Optimistic prewrite of `m`.
pub open spec fn prewrite_step(s: Store, start_ts: u64, m: Mutation, primary: Seq<u8>, o: Options) -> Step<()> {
    let k = m.key_view();
    match s.lock_of(k) {
        Some(l) => if l.ts != start_ts {
            Step { res: Err(ErrorView::KeyIsLocked(lock_info_of(k, l))), mods: seq![], seeks: false }
        } else {
            Step { res: Ok(()), mods: seq![], seeks: false }
        },
        None => if o.skip_constraint_check {
            Step { res: Ok(()), mods: prewrite_mods(start_ts, m, primary, o), seeks: false }
        } else {
            match constraint_error(s, start_ts, k, m.should_not_exist()) {
                Some(e) => Step { res: Err(e), mods: seq![], seeks: true },
                None => Step { res: Ok(()), mods: prewrite_mods(start_ts, m, primary, o), seeks: true },
            }
        },
    }
}

/// Prewrite of `m` in a pessimistic transaction.
pub open spec fn pessimistic_prewrite_step(
    s: Store,
    start_ts: u64,
    m: Mutation,
    primary: Seq<u8>,
    is_pessimistic_lock: bool,
    o: Options,
) -> Step<()> {
    let k = m.key_view();
    match s.lock_of(k) {
        Some(l) => if l.ts != start_ts {
            Step { res: Err(ErrorView::KeyIsLocked(lock_info_of(k, l))), mods: seq![], seeks: false }
        } else if l.lock_type != LockType::Pessimistic {
            Step { res: Ok(()), mods: seq![], seeks: false }
        } else {
            Step { res: Ok(()), mods: prewrite_mods(start_ts, m, primary, o), seeks: false }
        },
        None => if is_pessimistic_lock {
            Step { res: Err(ErrorView::PessimisticLockNotFound { start_ts, key: k }), mods: seq![], seeks: false }
        } else {
            prewrite_step(s, start_ts, m, primary, o)
        },
    }
}

/// Acquiring a pessimistic lock on `k`.
pub open spec fn acquire_step(s: Store, start_ts: u64, k: Seq<u8>, primary: Seq<u8>, should_not_exist: bool, o: Options) -> Step<()> {
    match s.lock_of(k) {
        Some(l) => if l.ts != start_ts {
            Step { res: Err(ErrorView::KeyIsLocked(lock_info_of(k, l))), mods: seq![], seeks: false }
        } else {
            Step { res: Ok(()), mods: seq![], seeks: false }
        },
        None => {
            let err = match s.seek_write_spec(k, u64::MAX, None) {
                Some((c, w)) => if c > o.for_update_ts {
                    Some(ErrorView::WriteConflict { start_ts, conflict_start_ts: w.start_ts, conflict_commit_ts: c, key: k })
                } else if should_not_exist && w.write_type == WriteType::Put {
                    Some(ErrorView::AlreadyExist { key: k })
                } else {
                    None
                },
                None => None,
            };
            match err {
                Some(e) => Step { res: Err(e), mods: seq![], seeks: true },
                None => Step {
                    res: Ok(()),
                    mods: seq![ModifyView::PutLock(k, LockView {
                        lock_type: LockType::Pessimistic,
                        primary,
                        ts: start_ts,
                        ttl: o.lock_ttl,
                        for_update_ts: o.for_update_ts,
                        txn_size: o.txn_size,
                    })],
                    seeks: true,
                },
            }
        },
    }
}

/// Committing `k` at `commit_ts`; the result tells whether the transaction is pessimistic.
pub open spec fn commit_step(s: Store, start_ts: u64, k: Seq<u8>, commit_ts: u64) -> Step<bool> {
    let not_found = ErrorView::TxnLockNotFound { start_ts, commit_ts, key: k };
    match s.lock_of(k) {
        Some(l) if l.ts == start_ts => if l.lock_type == LockType::Pessimistic {
            Step { res: Err(not_found), mods: seq![], seeks: false }
        } else {
            Step {
                res: Ok(l.for_update_ts != 0),
                mods: seq![
                    ModifyView::PutWrite(k, commit_ts, Write { write_type: write_type_of(l.lock_type), start_ts }),
                    ModifyView::DeleteLock(k),
                ],
                seeks: false,
            }
        },
        _ => match s.seek_write_spec(k, u64::MAX, Some(start_ts)) {
            Some((_, w)) if w.write_type != WriteType::Rollback => Step { res: Ok(false), mods: seq![], seeks: true },
            _ => Step { res: Err(not_found), mods: seq![], seeks: true },
        },
    }
}

/// Cleaning up `k` at `current_ts` (0 forces the rollback); the result tells
/// whether the transaction is pessimistic.
pub open spec fn cleanup_step(s: Store, start_ts: u64, k: Seq<u8>, current_ts: u64) -> Step<bool> {
    match s.lock_of(k) {
        Some(l) if l.ts == start_ts => if current_ts > 0 && !lock_expired(l, current_ts) {
            Step { res: Err(ErrorView::KeyIsLocked(lock_info_of(k, l))), mods: seq![], seeks: false }
        } else {
            Step { res: Ok(l.for_update_ts != 0), mods: rollback_lock_mods(start_ts, k, l), seeks: false }
        },
        _ => match s.seek_write_spec(k, u64::MAX, Some(start_ts)) {
            Some((c, w)) => if w.write_type != WriteType::Rollback {
                Step { res: Err(ErrorView::Committed { commit_ts: c }), mods: seq![], seeks: true }
            } else {
                Step { res: Ok(false), mods: seq![], seeks: true }
            },
            None => Step { res: Ok(false), mods: rollback_record(start_ts, k), seeks: true },
        },
    }
}

/// Removing this transaction's pessimistic lock on `k`, if it is not newer than `for_update_ts`.
pub open spec fn pessimistic_rollback_mods(s: Store, start_ts: u64, k: Seq<u8>, for_update_ts: u64) -> Seq<ModifyView> {
    match s.lock_of(k) {
        Some(l) if l.lock_type == LockType::Pessimistic && l.ts == start_ts && l.for_update_ts <= for_update_ts =>
            seq![ModifyView::DeleteLock(k)],
        _ => seq![],
    }
}

/// Extending the time to live of the primary lock to `advise_ttl`.
pub open spec fn heart_beat_step(s: Store, start_ts: u64, k: Seq<u8>, advise_ttl: u64) -> Step<u64> {
    match s.lock_of(k) {
        Some(l) if l.ts == start_ts => if l.ttl < advise_ttl {
            Step { res: Ok(advise_ttl), mods: seq![ModifyView::PutLock(k, LockView { ttl: advise_ttl, ..l })], seeks: false }
        } else {
            Step { res: Ok(l.ttl), mods: seq![], seeks: false }
        },
        _ => Step { res: Err(ErrorView::TxnNotFound { start_ts, key: k }), mods: seq![], seeks: false },
    }
}

/// Checking the transaction's status at its primary key `k`; the second
/// result tells whether the transaction is pessimistic.
pub open spec fn check_status_step(s: Store, start_ts: u64, k: Seq<u8>, current_ts: u64, rollback_if_not_exist: bool) -> Step<(TxnStatus, bool)> {
    match s.lock_of(k) {
        Some(l) if l.ts == start_ts => if lock_expired(l, current_ts) {
            Step { res: Ok((TxnStatus::TtlExpire, l.for_update_ts != 0)), mods: rollback_lock_mods(start_ts, k, l), seeks: false }
        } else {
            Step { res: Ok((TxnStatus::Uncommitted { lock_ttl: l.ttl, min_commit_ts: 0 }, false)), mods: seq![], seeks: false }
        },
        _ => match s.seek_write_spec(k, u64::MAX, Some(start_ts)) {
            Some((c, w)) => if w.write_type != WriteType::Rollback {
                Step { res: Ok((TxnStatus::Committed { commit_ts: c }, false)), mods: seq![], seeks: true }
            } else {
                Step { res: Ok((TxnStatus::RolledBack, false)), mods: seq![], seeks: true }
            },
            None => if rollback_if_not_exist {
                Step { res: Ok((TxnStatus::LockNotExist, false)), mods: rollback_record(start_ts, k), seeks: true }
            } else {
                Step { res: Err(ErrorView::TxnNotFound { start_ts, key: k }), mods: seq![], seeks: true }
            },
        },
    }
}

/// A transaction at `start_ts` over a snapshot, buffering its modifications.
pub struct MvccTxn {
    pub start_ts: u64,
    pub modifies: Vec<Modify>,
}

impl MvccTxn {
    pub open spec fn mods(&self) -> Seq<ModifyView> {
        mods_view(self.modifies@)
    }

    /// The txn has done `st`, starting from `old`.
    pub open spec fn did<T>(old: MvccTxn, new: MvccTxn, r: Result<T, Error>, st: Step<T>, stats0: Statistics, stats1: Statistics) -> bool {
        &&& res_view(r) == st.res
        &&& new.start_ts == old.start_ts
        &&& new.mods() == old.mods() + st.mods
        &&& stats1.write.seek == (if st.seeks { bump(stats0.write.seek) } else { stats0.write.seek })
    }

    pub fn new(start_ts: u64) -> (r: MvccTxn)
        ensures
            r.start_ts == start_ts,
            r.mods() == Seq::<ModifyView>::empty(),
    {
        let r = MvccTxn { start_ts, modifies: Vec::new() };
        assert(r.mods() =~= Seq::<ModifyView>::empty());
        r
    }

    fn push(&mut self, m: Modify)
        ensures
            final(self).start_ts == old(self).start_ts,
            final(self).mods() == old(self).mods().push(m@),
    {
        self.modifies.push(m);
        assert(self.mods() =~= old(self).mods().push(m@));
    }

    /// Hands out the buffered modifications.
    pub fn into_modifies(self) -> (r: Vec<Modify>)
        ensures
            mods_view(r@) == self.mods(),
    {
        self.modifies
    }

    fn put_prewrite(&mut self, m: &Mutation, primary: &Vec<u8>, o: &Options)
        ensures
            final(self).start_ts == old(self).start_ts,
            final(self).mods() == old(self).mods() + prewrite_mods(old(self).start_ts, *m, primary@, *o),
    {
        let ghost m0 = *m;
        let lock_type = match m {
            Mutation::Put(_, _) => LockType::Put,
            Mutation::Delete(_) => LockType::Delete,
            Mutation::Lock(_) => LockType::Lock,
            Mutation::Insert(_, _) => LockType::Put,
        };
        let lock = MvccLock {
            lock_type,
            primary: primary.clone(),
            ts: self.start_ts,
            ttl: o.lock_ttl,
            for_update_ts: o.for_update_ts,
            txn_size: o.txn_size,
        };
        let ghost before = self.mods();
        match m {
            Mutation::Put(k, v) | Mutation::Insert(k, v) => {
                self.push(Modify::PutValue(k.clone(), self.start_ts, v.clone()));
                self.push(Modify::PutLock(k.clone(), lock));
            },
            Mutation::Delete(k) | Mutation::Lock(k) => {
                self.push(Modify::PutLock(k.clone(), lock));
            },
        }
        assert(self.mods() =~= before + prewrite_mods(self.start_ts, m0, primary@, *o));
    }

    fn check_constraint(&self, store: &Store, key: &Vec<u8>, should_not_exist: bool, stats: &mut Statistics) -> (r: Result<(), Error>)
        ensures
            res_view(r) == (match constraint_error(*store, self.start_ts, key@, should_not_exist) {
                Some(e) => Err(e),
                None => Ok(()),
            }),
            final(stats).write.seek == bump(old(stats).write.seek),
    {
        match store.seek_write(key, u64::MAX, None, stats) {
            Some((c, w)) => if c >= self.start_ts {
                Err(Error::WriteConflict { start_ts: self.start_ts, conflict_start_ts: w.start_ts, conflict_commit_ts: c, key: key.clone() })
            } else if should_not_exist && w.write_type == WriteType::Put {
                Err(Error::AlreadyExist { key: key.clone() })
            } else {
                Ok(())
            },
            None => Ok(()),
        }
    }

    /// Prewrites `m` optimistically.
    pub fn prewrite(&mut self, store: &Store, m: &Mutation, primary: &Vec<u8>, o: &Options, stats: &mut Statistics) -> (r: Result<(), Error>)
        ensures
            Self::did(*old(self), *final(self), r, prewrite_step(*store, old(self).start_ts, *m, primary@, *o), *old(stats), *final(stats)),
    {
        let key = m.key();
        match store.load_lock(key) {
            Some(l) => {
                if l.ts != self.start_ts {
                    return Err(Error::KeyIsLocked(make_lock_info(key, l)));
                }
                return Ok(());
            },
            None => {},
        }
        if !o.skip_constraint_check {
            let should_not_exist = match m {
                Mutation::Insert(_, _) => true,
                _ => false,
            };
            let c = self.check_constraint(store, key, should_not_exist, stats);
            if c.is_err() {
                return c;
            }
        }
        self.put_prewrite(m, primary, o);
        Ok(())
    }
    /// Prewrites `m` in a pessimistic transaction; `is_pessimistic_lock` says
    /// whether the key was locked pessimistically before.
    pub fn pessimistic_prewrite(
        &mut self,
        store: &Store,
        m: &Mutation,
        primary: &Vec<u8>,
        is_pessimistic_lock: bool,
        o: &Options,
        stats: &mut Statistics,
    ) -> (r: Result<(), Error>)
        ensures
            Self::did(*old(self), *final(self), r,
                pessimistic_prewrite_step(*store, old(self).start_ts, *m, primary@, is_pessimistic_lock, *o), *old(stats), *final(stats)),
    {
        let key = m.key();
        match store.load_lock(key) {
            Some(l) => {
                if l.ts != self.start_ts {
                    return Err(Error::KeyIsLocked(make_lock_info(key, l)));
                }
                if l.lock_type != LockType::Pessimistic {
                    return Ok(());
                }
                self.put_prewrite(m, primary, o);
                Ok(())
            },
            None => {
                if is_pessimistic_lock {
                    return Err(Error::PessimisticLockNotFound { start_ts: self.start_ts, key: key.clone() });
                }
                self.prewrite(store, m, primary, o, stats)
            },
        }
    }

    /// Acquires a pessimistic lock on `key`.
    pub fn acquire_pessimistic_lock(
        &mut self,
        store: &Store,
        key: Vec<u8>,
        primary: &Vec<u8>,
        should_not_exist: bool,
        o: &Options,
        stats: &mut Statistics,
    ) -> (r: Result<(), Error>)
        ensures
            Self::did(*old(self), *final(self), r,
                acquire_step(*store, old(self).start_ts, key@, primary@, should_not_exist, *o), *old(stats), *final(stats)),
    {
        match store.load_lock(&key) {
            Some(l) => {
                if l.ts != self.start_ts {
                    return Err(Error::KeyIsLocked(make_lock_info(&key, l)));
                }
                return Ok(());
            },
            None => {},
        }
        match store.seek_write(&key, u64::MAX, None, stats) {
            Some((c, w)) => {
                if c > o.for_update_ts {
                    return Err(Error::WriteConflict {
                        start_ts: self.start_ts,
                        conflict_start_ts: w.start_ts,
                        conflict_commit_ts: c,
                        key,
                    });
                }
                if should_not_exist && w.write_type == WriteType::Put {
                    return Err(Error::AlreadyExist { key });
                }
            },
            None => {},
        }
        let lock = MvccLock {
            lock_type: LockType::Pessimistic,
            primary: primary.clone(),
            ts: self.start_ts,
            ttl: o.lock_ttl,
            for_update_ts: o.for_update_ts,
            txn_size: o.txn_size,
        };
        let ghost before = self.mods();
        self.push(Modify::PutLock(key, lock));
        assert(self.mods() =~= before + acquire_step(*store, self.start_ts, key@, primary@, should_not_exist, *o).mods);
        Ok(())
    }

    /// Commits `key` at `commit_ts`; returns whether the transaction is pessimistic.
    pub fn commit(&mut self, store: &Store, key: Vec<u8>, commit_ts: u64, stats: &mut Statistics) -> (r: Result<bool, Error>)
        ensures
            Self::did(*old(self), *final(self), r, commit_step(*store, old(self).start_ts, key@, commit_ts), *old(stats), *final(stats)),
    {
        let ghost before = self.mods();
        match store.load_lock(&key) {
            Some(l) => {
                if l.ts == self.start_ts {
                    if l.lock_type == LockType::Pessimistic {
                        return Err(Error::TxnLockNotFound { start_ts: self.start_ts, commit_ts, key });
                    }
                    let write_type = match l.lock_type {
                        LockType::Put => WriteType::Put,
                        LockType::Delete => WriteType::Delete,
                        _ => WriteType::Lock,
                    };
                    let is_pessimistic = l.for_update_ts != 0;
                    let k2 = key.clone();
                    self.push(Modify::PutWrite(key, commit_ts, Write { write_type, start_ts: self.start_ts }));
                    self.push(Modify::DeleteLock(k2));
                    assert(self.mods() =~= before + commit_step(*store, self.start_ts, key@, commit_ts).mods);
                    return Ok(is_pessimistic);
                }
            },
            None => {},
        }
        match store.seek_write(&key, u64::MAX, Some(self.start_ts), stats) {
            Some((_, w)) => {
                if w.write_type != WriteType::Rollback {
                    assert(self.mods() =~= before + Seq::<ModifyView>::empty());
                    return Ok(false);
                }
            },
            None => {},
        }
        assert(self.mods() =~= before + Seq::<ModifyView>::empty());
        Err(Error::TxnLockNotFound { start_ts: self.start_ts, commit_ts, key })
    }

    fn rollback_lock(&mut self, key: Vec<u8>, l: &MvccLock)
        ensures
            final(self).start_ts == old(self).start_ts,
            final(self).mods() == old(self).mods() + rollback_lock_mods(old(self).start_ts, key@, l@),
    {
        let ghost before = self.mods();
        if l.lock_type == LockType::Put {
            self.push(Modify::DeleteValue(key.clone(), self.start_ts));
        }
        let k2 = key.clone();
        self.push(Modify::PutWrite(key, self.start_ts, Write { write_type: WriteType::Rollback, start_ts: self.start_ts }));
        self.push(Modify::DeleteLock(k2));
        assert(self.mods() =~= before + rollback_lock_mods(self.start_ts, key@, l@));
    }

    fn is_expired(l: &MvccLock, current_ts: u64) -> (r: bool)
        ensures
            r == lock_expired(l@, current_ts),
    {
        ((l.ts / 262144) as u128 + l.ttl as u128) < (current_ts / 262144) as u128
    }

    /// Rolls back `key` unless its lock is still alive at `current_ts`
    /// (0 forces the rollback); returns whether the transaction is pessimistic.
    pub fn cleanup(&mut self, store: &Store, key: Vec<u8>, current_ts: u64, stats: &mut Statistics) -> (r: Result<bool, Error>)
        ensures
            Self::did(*old(self), *final(self), r, cleanup_step(*store, old(self).start_ts, key@, current_ts), *old(stats), *final(stats)),
    {
        let ghost before = self.mods();
        match store.load_lock(&key) {
            Some(l) => {
                if l.ts == self.start_ts {
                    if current_ts > 0 && !Self::is_expired(l, current_ts) {
                        return Err(Error::KeyIsLocked(make_lock_info(&key, l)));
                    }
                    let is_pessimistic = l.for_update_ts != 0;
                    self.rollback_lock(key, l);
                    return Ok(is_pessimistic);
                }
            },
            None => {},
        }
        match store.seek_write(&key, u64::MAX, Some(self.start_ts), stats) {
            Some((c, w)) => {
                assert(self.mods() =~= before + Seq::<ModifyView>::empty());
                if w.write_type != WriteType::Rollback {
                    Err(Error::Committed { commit_ts: c })
                } else {
                    Ok(false)
                }
            },
            None => {
                let ts = self.start_ts;
                self.push(Modify::PutWrite(key, ts, Write { write_type: WriteType::Rollback, start_ts: ts }));
                assert(self.mods() =~= before + rollback_record(ts, key@));
                Ok(false)
            },
        }
    }

    /// Rolls back `key`; returns whether the transaction is pessimistic.
    pub fn rollback(&mut self, store: &Store, key: Vec<u8>, stats: &mut Statistics) -> (r: Result<bool, Error>)
        ensures
            Self::did(*old(self), *final(self), r, cleanup_step(*store, old(self).start_ts, key@, 0), *old(stats), *final(stats)),
    {
        self.cleanup(store, key, 0, stats)
    }

    /// Removes this transaction's pessimistic lock on `key`.
    pub fn pessimistic_rollback(&mut self, store: &Store, key: Vec<u8>, for_update_ts: u64)
        ensures
            final(self).start_ts == old(self).start_ts,
            final(self).mods() == old(self).mods() + pessimistic_rollback_mods(*store, old(self).start_ts, key@, for_update_ts),
    {
        let ghost before = self.mods();
        let remove = match store.load_lock(&key) {
            Some(l) => l.lock_type == LockType::Pessimistic && l.ts == self.start_ts && l.for_update_ts <= for_update_ts,
            None => false,
        };
        if remove {
            self.push(Modify::DeleteLock(key));
        }
        assert(self.mods() =~= before + pessimistic_rollback_mods(*store, self.start_ts, key@, for_update_ts));
    }

    /// Extends the time to live of the primary lock; returns the lock's time to live.
    pub fn txn_heart_beat(&mut self, store: &Store, key: Vec<u8>, advise_ttl: u64) -> (r: Result<u64, Error>)
        ensures
            res_view(r) == heart_beat_step(*store, old(self).start_ts, key@, advise_ttl).res,
            final(self).start_ts == old(self).start_ts,
            final(self).mods() == old(self).mods() + heart_beat_step(*store, old(self).start_ts, key@, advise_ttl).mods,
    {
        let ghost before = self.mods();
        match store.load_lock(&key) {
            Some(l) => {
                if l.ts == self.start_ts {
                    if l.ttl < advise_ttl {
                        let mut nl = l.duplicate();
                        nl.ttl = advise_ttl;
                        self.push(Modify::PutLock(key, nl));
                        assert(self.mods() =~= before + heart_beat_step(*store, self.start_ts, key@, advise_ttl).mods);
                        return Ok(advise_ttl);
                    }
                    assert(self.mods() =~= before + Seq::<ModifyView>::empty());
                    return Ok(l.ttl);
                }
            },
            None => {},
        }
        assert(self.mods() =~= before + Seq::<ModifyView>::empty());
        Err(Error::TxnNotFound { start_ts: self.start_ts, key })
    }

    /// Checks the status of the transaction at its primary key, rolling back
    /// an expired lock, and, where `rollback_if_not_exist`, a missing one.
    pub fn check_txn_status(
        &mut self,
        store: &Store,
        key: Vec<u8>,
        caller_start_ts: u64,
        current_ts: u64,
        rollback_if_not_exist: bool,
        stats: &mut Statistics,
    ) -> (r: Result<(TxnStatus, bool), Error>)
        ensures
            Self::did(*old(self), *final(self), r,
                check_status_step(*store, old(self).start_ts, key@, current_ts, rollback_if_not_exist), *old(stats), *final(stats)),
    {
        let ghost before = self.mods();
        match store.load_lock(&key) {
            Some(l) => {
                if l.ts == self.start_ts {
                    if Self::is_expired(l, current_ts) {
                        let is_pessimistic = l.for_update_ts != 0;
                        self.rollback_lock(key, l);
                        return Ok((TxnStatus::TtlExpire, is_pessimistic));
                    }
                    assert(self.mods() =~= before + Seq::<ModifyView>::empty());
                    return Ok((TxnStatus::Uncommitted { lock_ttl: l.ttl, min_commit_ts: 0 }, false));
                }
            },
            None => {},
        }
        match store.seek_write(&key, u64::MAX, Some(self.start_ts), stats) {
            Some((c, w)) => {
                assert(self.mods() =~= before + Seq::<ModifyView>::empty());
                if w.write_type != WriteType::Rollback {
                    Ok((TxnStatus::Committed { commit_ts: c }, false))
                } else {
                    Ok((TxnStatus::RolledBack, false))
                }
            },
            None => {
                if rollback_if_not_exist {
                    let ts = self.start_ts;
                    self.push(Modify::PutWrite(key, ts, Write { write_type: WriteType::Rollback, start_ts: ts }));
                    assert(self.mods() =~= before + rollback_record(ts, key@));
                    Ok((TxnStatus::LockNotExist, false))
                } else {
                    assert(self.mods() =~= before + Seq::<ModifyView>::empty());
                    Err(Error::TxnNotFound { start_ts: self.start_ts, key })
                }
            },
        }
    }
}

} // verus!
