use vstd::prelude::*;

verus! {

/// The kind of a pending lock.
#[derive(Clone, Copy, Debug, PartialEq, Eq, Structural)]
pub enum LockType {
    Put,
    Delete,
    Lock,
    Pessimistic,
}

/// The kind of a committed version record.
#[derive(Clone, Copy, Debug, PartialEq, Eq, Structural)]
pub enum WriteType {
    Put,
    Delete,
    Lock,
    Rollback,
}

/// A version record in the write column family: what the transaction that
/// started at `start_ts` left behind.
#[derive(Clone, Copy, Debug, PartialEq, Eq, Structural)]
pub struct Write {
    pub write_type: WriteType,
    pub start_ts: u64,
}

/// A lock held on a key by an unfinished transaction.
#[derive(Clone, Debug)]
pub struct MvccLock {
    pub lock_type: LockType,
    pub primary: Vec<u8>,
    pub ts: u64,
    pub ttl: u64,
    pub for_update_ts: u64,
    pub txn_size: u64,
}

pub struct LockView {
    pub lock_type: LockType,
    pub primary: Seq<u8>,
    pub ts: u64,
    pub ttl: u64,
    pub for_update_ts: u64,
    pub txn_size: u64,
}

impl View for MvccLock {
    type V = LockView;

    open spec fn view(&self) -> LockView {
        LockView {
            lock_type: self.lock_type,
            primary: self.primary@,
            ts: self.ts,
            ttl: self.ttl,
            for_update_ts: self.for_update_ts,
            txn_size: self.txn_size,
        }
    }
}

impl MvccLock {
    /// A copy of the lock.
    pub fn duplicate(&self) -> (r: MvccLock)
        ensures
            r@ == self@,
    {
        MvccLock {
            lock_type: self.lock_type,
            primary: self.primary.clone(),
            ts: self.ts,
            ttl: self.ttl,
            for_update_ts: self.for_update_ts,
            txn_size: self.txn_size,
        }
    }
}

/// A change that a transaction asks to write.
#[derive(Clone, Debug)]
pub enum Mutation {
    Put(Vec<u8>, Vec<u8>),
    Delete(Vec<u8>),
    Lock(Vec<u8>),
    /// A put that requires the key not to exist yet.
    Insert(Vec<u8>, Vec<u8>),
}

impl Mutation {
    pub open spec fn value_view(&self) -> Option<Seq<u8>> {
        match self {
            Mutation::Put(_, v) => Some(v@),
            Mutation::Insert(_, v) => Some(v@),
            _ => None,
        }
    }

    pub open spec fn lock_type_spec(&self) -> LockType {
        match self {
            Mutation::Put(_, _) => LockType::Put,
            Mutation::Delete(_) => LockType::Delete,
            Mutation::Lock(_) => LockType::Lock,
            Mutation::Insert(_, _) => LockType::Put,
        }
    }

    pub open spec fn should_not_exist(&self) -> bool {
        self is Insert
    }

    pub open spec fn key_view(&self) -> Seq<u8> {
        match self {
            Mutation::Put(k, _) => k@,
            Mutation::Delete(k) => k@,
            Mutation::Lock(k) => k@,
            Mutation::Insert(k, _) => k@,
        }
    }

    pub fn key(&self) -> (r: &Vec<u8>)
        ensures
            r@ == self.key_view(),
    {
        match self {
            Mutation::Put(k, _) => k,
            Mutation::Delete(k) => k,
            Mutation::Lock(k) => k,
            Mutation::Insert(k, _) => k,
        }
    }
}

/// Per-command options of prewrite and pessimistic lock acquisition.
#[derive(Clone, Debug)]
pub struct Options {
    pub lock_ttl: u64,
    pub skip_constraint_check: bool,
    pub txn_size: u64,
    pub for_update_ts: u64,
    pub is_pessimistic_lock: Vec<bool>,
    pub is_first_lock: bool,
    pub wait_timeout: i64,
}

impl Default for Options {
    fn default() -> (r: Options)
        ensures
            r.lock_ttl == 0,
            !r.skip_constraint_check,
            r.txn_size == 0,
            r.for_update_ts == 0,
            r.is_pessimistic_lock@.len() == 0,
            !r.is_first_lock,
            r.wait_timeout == 0,
    {
        Options {
            lock_ttl: 0,
            skip_constraint_check: false,
            txn_size: 0,
            for_update_ts: 0,
            is_pessimistic_lock: Vec::new(),
            is_first_lock: false,
            wait_timeout: 0,
        }
    }
}

/// What a client learns of a lock that blocks it.
#[derive(Clone, Debug)]
pub struct LockInfo {
    pub primary_lock: Vec<u8>,
    pub lock_version: u64,
    pub key: Vec<u8>,
    pub lock_ttl: u64,
    pub txn_size: u64,
}

pub struct LockInfoView {
    pub primary_lock: Seq<u8>,
    pub lock_version: u64,
    pub key: Seq<u8>,
    pub lock_ttl: u64,
    pub txn_size: u64,
}

impl View for LockInfo {
    type V = LockInfoView;

    open spec fn view(&self) -> LockInfoView {
        LockInfoView {
            primary_lock: self.primary_lock@,
            lock_version: self.lock_version,
            key: self.key@,
            lock_ttl: self.lock_ttl,
            txn_size: self.txn_size,
        }
    }
}

/// The description of `lock`, held on `key`, that a blocked client receives.
pub open spec fn lock_info_of(key: Seq<u8>, lock: LockView) -> LockInfoView {
    LockInfoView {
        primary_lock: lock.primary,
        lock_version: lock.ts,
        key: key,
        lock_ttl: lock.ttl,
        txn_size: lock.txn_size,
    }
}

pub fn make_lock_info(key: &Vec<u8>, lock: &MvccLock) -> (r: LockInfo)
    ensures
        r@ == lock_info_of(key@, lock@),
{
    LockInfo {
        primary_lock: lock.primary.clone(),
        lock_version: lock.ts,
        key: key.clone(),
        lock_ttl: lock.ttl,
        txn_size: lock.txn_size,
    }
}

/// A lock as the waiter manager knows it: the holder's start timestamp and
/// the hash of the key.
#[derive(Clone, Copy, Debug, PartialEq, Eq, Structural)]
pub struct Lock {
    pub ts: u64,
    pub hash: u64,
}

/// The state of a transaction as seen from its primary key.
#[derive(Clone, Copy, Debug, PartialEq, Eq, Structural)]
pub enum TxnStatus {
    RolledBack,
    TtlExpire,
    LockNotExist,
    Committed { commit_ts: u64 },
    Uncommitted { lock_ttl: u64, min_commit_ts: u64 },
}

/// The failures of a command.
#[derive(Clone, Debug)]
pub enum Error {
    KeyIsLocked(LockInfo),
    WriteConflict { start_ts: u64, conflict_start_ts: u64, conflict_commit_ts: u64, key: Vec<u8> },
    AlreadyExist { key: Vec<u8> },
    TxnLockNotFound { start_ts: u64, commit_ts: u64, key: Vec<u8> },
    TxnNotFound { start_ts: u64, key: Vec<u8> },
    Committed { commit_ts: u64 },
    InvalidTxnTso { start_ts: u64, commit_ts: u64 },
    PessimisticLockNotFound { start_ts: u64, key: Vec<u8> },
    /// A failure of the storage engine, described in words.
    Engine(String),
}

pub enum ErrorView {
    KeyIsLocked(LockInfoView),
    WriteConflict { start_ts: u64, conflict_start_ts: u64, conflict_commit_ts: u64, key: Seq<u8> },
    AlreadyExist { key: Seq<u8> },
    TxnLockNotFound { start_ts: u64, commit_ts: u64, key: Seq<u8> },
    TxnNotFound { start_ts: u64, key: Seq<u8> },
    Committed { commit_ts: u64 },
    InvalidTxnTso { start_ts: u64, commit_ts: u64 },
    PessimisticLockNotFound { start_ts: u64, key: Seq<u8> },
    Engine(Seq<char>),
}

impl View for Error {
    type V = ErrorView;

    open spec fn view(&self) -> ErrorView {
        match self {
            Error::KeyIsLocked(info) => ErrorView::KeyIsLocked(info@),
            Error::WriteConflict { start_ts, conflict_start_ts, conflict_commit_ts, key } => ErrorView::WriteConflict {
                start_ts: *start_ts,
                conflict_start_ts: *conflict_start_ts,
                conflict_commit_ts: *conflict_commit_ts,
                key: key@,
            },
            Error::AlreadyExist { key } => ErrorView::AlreadyExist { key: key@ },
            Error::TxnLockNotFound { start_ts, commit_ts, key } => ErrorView::TxnLockNotFound {
                start_ts: *start_ts,
                commit_ts: *commit_ts,
                key: key@,
            },
            Error::TxnNotFound { start_ts, key } => ErrorView::TxnNotFound { start_ts: *start_ts, key: key@ },
            Error::Committed { commit_ts } => ErrorView::Committed { commit_ts: *commit_ts },
            Error::InvalidTxnTso { start_ts, commit_ts } => ErrorView::InvalidTxnTso {
                start_ts: *start_ts,
                commit_ts: *commit_ts,
            },
            Error::PessimisticLockNotFound { start_ts, key } => ErrorView::PessimisticLockNotFound {
                start_ts: *start_ts,
                key: key@,
            },
            Error::Engine(m) => ErrorView::Engine(m@),
        }
    }
}

/// The view of a result whose error is an `Error`.
pub open spec fn res_view<T>(r: Result<T, Error>) -> Result<T, ErrorView> {
    match r {
        Ok(v) => Ok(v),
        Err(e) => Err(e@),
    }
}

impl Error {
    /// The lock description carried by a `KeyIsLocked` error.
    pub fn as_key_is_locked(&self) -> (r: Option<&LockInfo>)
        ensures
            r == (match self {
                Error::KeyIsLocked(info) => Some(info),
                _ => None,
            }),
    {
        match self {
            Error::KeyIsLocked(info) => Some(info),
            _ => None,
        }
    }
}

/// One write to one column family.
#[derive(Clone, Debug)]
pub enum Modify {
    PutLock(Vec<u8>, MvccLock),
    DeleteLock(Vec<u8>),
    PutWrite(Vec<u8>, u64, Write),
    DeleteWrite(Vec<u8>, u64),
    PutValue(Vec<u8>, u64, Vec<u8>),
    DeleteValue(Vec<u8>, u64),
}

pub enum ModifyView {
    PutLock(Seq<u8>, LockView),
    DeleteLock(Seq<u8>),
    PutWrite(Seq<u8>, u64, Write),
    DeleteWrite(Seq<u8>, u64),
    PutValue(Seq<u8>, u64, Seq<u8>),
    DeleteValue(Seq<u8>, u64),
}

impl View for Modify {
    type V = ModifyView;

    open spec fn view(&self) -> ModifyView {
        match self {
            Modify::PutLock(k, l) => ModifyView::PutLock(k@, l@),
            Modify::DeleteLock(k) => ModifyView::DeleteLock(k@),
            Modify::PutWrite(k, c, w) => ModifyView::PutWrite(k@, *c, *w),
            Modify::DeleteWrite(k, c) => ModifyView::DeleteWrite(k@, *c),
            Modify::PutValue(k, t, v) => ModifyView::PutValue(k@, *t, v@),
            Modify::DeleteValue(k, t) => ModifyView::DeleteValue(k@, *t),
        }
    }
}

/// The views of a sequence of modifications.
pub open spec fn mods_view(s: Seq<Modify>) -> Seq<ModifyView> {
    s.map_values(|m: Modify| m@)
}

pub open spec fn sat(x: nat) -> u64 {
    if x > u64::MAX { u64::MAX } else { x as u64 }
}

/// The number of bytes that a modification writes, capped at `u64::MAX`.
pub open spec fn modify_size(m: ModifyView) -> u64 {
    match m {
        ModifyView::PutLock(k, l) => sat(k.len() + l.primary.len() + 33),
        ModifyView::DeleteLock(k) => sat(k.len()),
        ModifyView::PutWrite(k, _, _) => sat(k.len() + 17),
        ModifyView::DeleteWrite(k, _) => sat(k.len() + 8),
        ModifyView::PutValue(k, _, v) => sat(k.len() + 8 + v.len()),
        ModifyView::DeleteValue(k, _) => sat(k.len() + 8),
    }
}

/// The number of bytes a batch of modifications writes, capped at `u64::MAX`.
pub open spec fn mods_size(s: Seq<ModifyView>) -> u64
    decreases s.len(),
{
    if s.len() == 0 {
        0
    } else {
        sat((mods_size(s.drop_last()) + modify_size(s.last())) as nat)
    }
}

impl Modify {
    /// A copy of the modification.
    pub fn clone_modify(&self) -> (r: Modify)
        ensures
            r@ == self@,
    {
        match self {
            Modify::PutLock(k, l) => Modify::PutLock(k.clone(), l.duplicate()),
            Modify::DeleteLock(k) => Modify::DeleteLock(k.clone()),
            Modify::PutWrite(k, c, w) => Modify::PutWrite(k.clone(), *c, *w),
            Modify::DeleteWrite(k, c) => Modify::DeleteWrite(k.clone(), *c),
            Modify::PutValue(k, t, v) => Modify::PutValue(k.clone(), *t, v.clone()),
            Modify::DeleteValue(k, t) => Modify::DeleteValue(k.clone(), *t),
        }
    }

    pub fn size(&self) -> (r: u64)
        ensures
            r == modify_size(self@),
    {
        match self {
            Modify::PutLock(k, l) => (k.len() as u64).saturating_add(l.primary.len() as u64).saturating_add(33),
            Modify::DeleteLock(k) => k.len() as u64,
            Modify::PutWrite(k, _, _) => (k.len() as u64).saturating_add(17),
            Modify::DeleteWrite(k, _) => (k.len() as u64).saturating_add(8),
            Modify::PutValue(k, _, v) => (k.len() as u64).saturating_add(8).saturating_add(v.len() as u64),
            Modify::DeleteValue(k, _) => (k.len() as u64).saturating_add(8),
        }
    }
}

} // verus!
