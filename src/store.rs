use std::collections::HashMap;
use vstd::prelude::*;
use crate::bytes::{bytes_eq, bytes_le, bytes_lt, lemma_lex_antisym, lemma_lex_total, lex_le, lex_lt};
use crate::types::{LockView, Modify, ModifyView, MvccLock, Write, mods_view};

verus! {

/// One entry of the lock column family: `None` deletes the key's lock.
pub type LockEntry = (Vec<u8>, Option<MvccLock>);

/// One entry of the write column family, keyed by key and commit timestamp.
pub type WriteEntry = (Vec<u8>, u64, Option<Write>);

/// One entry of the default column family, keyed by key and start timestamp.
pub type ValueEntry = (Vec<u8>, u64, Option<Vec<u8>>);

/// The lock on `k` after the entries of `s`, the last entry for `k` winning.
pub open spec fn lock_in(s: Seq<LockEntry>, k: Seq<u8>) -> Option<LockView>
    decreases s.len(),
{
    if s.len() == 0 {
        None
    } else if s.last().0@ == k {
        match s.last().1 {
            Some(l) => Some(l@),
            None => None,
        }
    } else {
        lock_in(s.drop_last(), k)
    }
}

/// The version record of `k` committed at `c` after the entries of `s`.
pub open spec fn write_in(s: Seq<WriteEntry>, k: Seq<u8>, c: u64) -> Option<Write>
    decreases s.len(),
{
    if s.len() == 0 {
        None
    } else if s.last().0@ == k && s.last().1 == c {
        s.last().2
    } else {
        write_in(s.drop_last(), k, c)
    }
}

/// The value of `k` written at start timestamp `t` after the entries of `s`.
pub open spec fn value_in(s: Seq<ValueEntry>, k: Seq<u8>, t: u64) -> Option<Seq<u8>>
    decreases s.len(),
{
    if s.len() == 0 {
        None
    } else if s.last().0@ == k && s.last().1 == t {
        match s.last().2 {
            Some(v) => Some(v@),
            None => None,
        }
    } else {
        value_in(s.drop_last(), k, t)
    }
}

/// Entry `i` of a write log is the last one for its key and commit timestamp.
pub open spec fn last_write_entry(s: Seq<WriteEntry>, i: int) -> bool {
    forall|j: int| i < j < s.len() ==> !(#[trigger] s[j].0@ == s[i].0@ && s[j].1 == s[i].1)
}

pub open spec fn last_value_entry(s: Seq<ValueEntry>, i: int) -> bool {
    forall|j: int| i < j < s.len() ==> !(#[trigger] s[j].0@ == s[i].0@ && s[j].1 == s[i].1)
}

proof fn lemma_write_in_last(s: Seq<WriteEntry>, i: int)
    requires
        0 <= i < s.len(),
        last_write_entry(s, i),
    ensures
        write_in(s, s[i].0@, s[i].1) == s[i].2,
    decreases s.len(),
{
    if i < s.len() - 1 {
        let t = s.drop_last();
        assert(s[s.len() - 1].0@ == s[i].0@ ==> s[s.len() - 1].1 != s[i].1);
        assert forall|j: int| i < j < t.len() implies !(#[trigger] t[j].0@ == t[i].0@ && t[j].1 == t[i].1) by {
            assert(t[j] == s[j]);
        }
        lemma_write_in_last(t, i);
    }
}

proof fn lemma_write_in_some(s: Seq<WriteEntry>, k: Seq<u8>, c: u64)
    requires
        write_in(s, k, c) is Some,
    ensures
        exists|i: int| 0 <= i < s.len() && #[trigger] s[i].0@ == k && s[i].1 == c && s[i].2 == write_in(s, k, c)
            && last_write_entry(s, i),
    decreases s.len(),
{
    let n = s.len() - 1;
    if s.last().0@ == k && s.last().1 == c {
        assert(s[n].0@ == k && s[n].1 == c && s[n].2 == write_in(s, k, c) && last_write_entry(s, n));
    } else {
        let t = s.drop_last();
        lemma_write_in_some(t, k, c);
        let i = choose|i: int| 0 <= i < t.len() && #[trigger] t[i].0@ == k && t[i].1 == c && t[i].2 == write_in(t, k, c)
            && last_write_entry(t, i);
        assert(s[i] == t[i]);
        assert(last_write_entry(s, i)) by {
            assert forall|j: int| i < j < s.len() implies !(#[trigger] s[j].0@ == s[i].0@ && s[j].1 == s[i].1) by {
                if j < n {
                    assert(s[j] == t[j]);
                }
            }
        }
    }
}

proof fn lemma_value_in_last(s: Seq<ValueEntry>, i: int)
    requires
        0 <= i < s.len(),
        last_value_entry(s, i),
    ensures
        value_in(s, s[i].0@, s[i].1) == (match s[i].2 {
            Some(v) => Some(v@),
            None => None::<Seq<u8>>,
        }),
    decreases s.len(),
{
    if i < s.len() - 1 {
        let t = s.drop_last();
        assert(s[s.len() - 1].0@ == s[i].0@ ==> s[s.len() - 1].1 != s[i].1);
        assert forall|j: int| i < j < t.len() implies !(#[trigger] t[j].0@ == t[i].0@ && t[j].1 == t[i].1) by {
            assert(t[j] == s[j]);
        }
        lemma_value_in_last(t, i);
    }
}

proof fn lemma_value_in_some(s: Seq<ValueEntry>, k: Seq<u8>, t: u64)
    requires
        value_in(s, k, t) is Some,
    ensures
        exists|i: int| 0 <= i < s.len() && #[trigger] s[i].0@ == k && s[i].1 == t && last_value_entry(s, i),
    decreases s.len(),
{
    let n = s.len() - 1;
    if s.last().0@ == k && s.last().1 == t {
        assert(s[n].0@ == k && s[n].1 == t && last_value_entry(s, n));
    } else {
        let u = s.drop_last();
        lemma_value_in_some(u, k, t);
        let i = choose|i: int| 0 <= i < u.len() && #[trigger] u[i].0@ == k && u[i].1 == t && last_value_entry(u, i);
        assert(s[i] == u[i]);
        assert(last_value_entry(s, i)) by {
            assert forall|j: int| i < j < s.len() implies !(#[trigger] s[j].0@ == s[i].0@ && s[j].1 == s[i].1) by {
                if j < n {
                    assert(s[j] == u[j]);
                }
            }
        }
    }
}

/// Which version records a search admits: those committed at or before
/// `ts`, and, where `start` is given, only those of that transaction.
pub open spec fn write_admitted(c: u64, w: Write, ts: u64, start: Option<u64>) -> bool {
    c <= ts && match start {
        Some(s) => w.start_ts == s,
        None => true,
    }
}

/// The lock on `k` once `mods` are applied over `s`.
pub open spec fn lock_after(s: Store, mods: Seq<ModifyView>, k: Seq<u8>) -> Option<LockView>
    decreases mods.len(),
{
    if mods.len() == 0 {
        s.lock_of(k)
    } else {
        match mods.last() {
            ModifyView::PutLock(k2, l) if k2 == k => Some(l),
            ModifyView::DeleteLock(k2) if k2 == k => None,
            _ => lock_after(s, mods.drop_last(), k),
        }
    }
}

/// The version record of `k` at `c` once `mods` are applied over `s`.
pub open spec fn write_after(s: Store, mods: Seq<ModifyView>, k: Seq<u8>, c: u64) -> Option<Write>
    decreases mods.len(),
{
    if mods.len() == 0 {
        s.write_of(k, c)
    } else {
        match mods.last() {
            ModifyView::PutWrite(k2, c2, w) if k2 == k && c2 == c => Some(w),
            ModifyView::DeleteWrite(k2, c2) if k2 == k && c2 == c => None,
            _ => write_after(s, mods.drop_last(), k, c),
        }
    }
}

/// The value of `k` at `t` once `mods` are applied over `s`.
pub open spec fn value_after(s: Store, mods: Seq<ModifyView>, k: Seq<u8>, t: u64) -> Option<Seq<u8>>
    decreases mods.len(),
{
    if mods.len() == 0 {
        s.value_of(k, t)
    } else {
        match mods.last() {
            ModifyView::PutValue(k2, t2, v) if k2 == k && t2 == t => Some(v),
            ModifyView::DeleteValue(k2, t2) if k2 == k && t2 == t => None,
            _ => value_after(s, mods.drop_last(), k, t),
        }
    }
}

/// `s2` is what `s` becomes once `mods` are applied.
pub open spec fn applied(s: Store, mods: Seq<ModifyView>, s2: Store) -> bool {
    &&& forall|k: Seq<u8>| #[trigger] s2.lock_of(k) == lock_after(s, mods, k)
    &&& forall|k: Seq<u8>, c: u64| #[trigger] s2.write_of(k, c) == write_after(s, mods, k, c)
    &&& forall|k: Seq<u8>, t: u64| #[trigger] s2.value_of(k, t) == value_after(s, mods, k, t)
}

/// The version records of a key, newest first: exactly the records of `k` in `s`.
pub open spec fn writes_newest_first(s: Store, k: Seq<u8>, w: Seq<(u64, Write)>) -> bool {
    &&& forall|i: int, j: int| 0 <= i < j < w.len() ==> w[i].0 > w[j].0
    &&& forall|i: int| 0 <= i < w.len() ==> s.write_of(k, #[trigger] w[i].0) == Some(w[i].1)
    &&& forall|c: u64| #[trigger] s.write_of(k, c) is Some ==> exists|i: int| 0 <= i < w.len() && w[i].0 == c
}

/// The values of a key, newest first: exactly the values of `k` in `s`.
pub open spec fn values_newest_first(s: Store, k: Seq<u8>, v: Seq<(u64, Vec<u8>)>) -> bool {
    &&& forall|i: int, j: int| 0 <= i < j < v.len() ==> v[i].0 > v[j].0
    &&& forall|i: int| 0 <= i < v.len() ==> s.value_of(k, #[trigger] v[i].0) == Some(v[i].1@)
    &&& forall|t: u64| #[trigger] s.value_of(k, t) is Some ==> exists|i: int| 0 <= i < v.len() && v[i].0 == t
}

/// The commit timestamp that `status` gives the transaction `ts`.
pub open spec fn status_in(status: Map<u64, u64>, ts: u64) -> Option<u64> {
    if status.contains_key(ts) { Some(status[ts]) } else { None }
}

/// Looks up the commit timestamp of the transaction `ts`.
pub fn lookup_status(status: &HashMap<u64, u64>, ts: u64) -> (r: Option<u64>)
    ensures
        r == status_in(status@, ts),
{
    broadcast use vstd::std_specs::hash::group_hash_axioms;
    match status.get(&ts) {
        Some(c) => Some(*c),
        None => None,
    }
}

/// Entry `i` of a lock log is the last one for its key.
pub open spec fn last_lock_entry(s: Seq<LockEntry>, i: int) -> bool {
    forall|j: int| i < j < s.len() ==> !(#[trigger] s[j].0@ == s[i].0@)
}

proof fn lemma_lock_in_last(s: Seq<LockEntry>, i: int)
    requires
        0 <= i < s.len(),
        last_lock_entry(s, i),
    ensures
        lock_in(s, s[i].0@) == (match s[i].1 {
            Some(l) => Some(l@),
            None => None::<LockView>,
        }),
    decreases s.len(),
{
    if i < s.len() - 1 {
        let t = s.drop_last();
        assert(s[s.len() - 1].0@ != s[i].0@);
        assert forall|j: int| i < j < t.len() implies !(#[trigger] t[j].0@ == t[i].0@) by {
            assert(t[j] == s[j]);
        }
        lemma_lock_in_last(t, i);
    }
}

proof fn lemma_lock_in_some(s: Seq<LockEntry>, k: Seq<u8>)
    requires
        lock_in(s, k) is Some,
    ensures
        exists|i: int| 0 <= i < s.len() && #[trigger] s[i].0@ == k && last_lock_entry(s, i),
    decreases s.len(),
{
    let n = s.len() - 1;
    if s.last().0@ == k {
        assert(s[n].0@ == k && last_lock_entry(s, n));
    } else {
        let t = s.drop_last();
        lemma_lock_in_some(t, k);
        let i = choose|i: int| 0 <= i < t.len() && #[trigger] t[i].0@ == k && last_lock_entry(t, i);
        assert(s[i] == t[i]);
        assert(last_lock_entry(s, i)) by {
            assert forall|j: int| i < j < s.len() implies !(#[trigger] s[j].0@ == s[i].0@) by {
                if j < n {
                    assert(s[j] == t[j]);
                }
            }
        }
    }
}

pub open spec fn above(a: Option<Seq<u8>>, k: Seq<u8>) -> bool {
    match a {
        Some(a) => lex_lt(a, k),
        None => true,
    }
}

/// How many entries of a lock log have a key above `a`.
pub open spec fn count_above(s: Seq<LockEntry>, a: Option<Seq<u8>>) -> nat
    decreases s.len(),
{
    if s.len() == 0 {
        0
    } else {
        count_above(s.drop_last(), a) + if above(a, s.last().0@) { 1nat } else { 0nat }
    }
}

proof fn lemma_count_le(s: Seq<LockEntry>, a_old: Option<Seq<u8>>, a_new: Option<Seq<u8>>)
    requires
        forall|j: int| 0 <= j < s.len() && above(a_new, #[trigger] s[j].0@) ==> above(a_old, s[j].0@),
    ensures
        count_above(s, a_new) <= count_above(s, a_old),
    decreases s.len(),
{
    if s.len() > 0 {
        let t = s.drop_last();
        assert forall|j: int| 0 <= j < t.len() && above(a_new, #[trigger] t[j].0@) implies above(a_old, t[j].0@) by {
            assert(t[j] == s[j]);
        }
        lemma_count_le(t, a_old, a_new);
        assert(above(a_new, s[s.len() - 1].0@) ==> above(a_old, s[s.len() - 1].0@));
    }
}

proof fn lemma_count_drops(s: Seq<LockEntry>, a_old: Option<Seq<u8>>, a_new: Option<Seq<u8>>, i: int)
    requires
        forall|j: int| 0 <= j < s.len() && above(a_new, #[trigger] s[j].0@) ==> above(a_old, s[j].0@),
        0 <= i < s.len(),
        above(a_old, s[i].0@),
        !above(a_new, s[i].0@),
    ensures
        count_above(s, a_new) < count_above(s, a_old),
    decreases s.len(),
{
    let t = s.drop_last();
    assert forall|j: int| 0 <= j < t.len() && above(a_new, #[trigger] t[j].0@) implies above(a_old, t[j].0@) by {
        assert(t[j] == s[j]);
    }
    assert(above(a_new, s[s.len() - 1].0@) ==> above(a_old, s[s.len() - 1].0@));
    if i == s.len() - 1 {
        lemma_count_le(t, a_old, a_new);
    } else {
        assert(t[i] == s[i]);
        lemma_count_drops(t, a_old, a_new, i);
    }
}

/// Which locks a scan returns.
#[derive(Debug)]
pub enum LockFilter {
    /// Locks of transactions that started at or before the timestamp.
    MaxTs(u64),
    /// Locks of the transactions that the status list names.
    InStatus(HashMap<u64, u64>),
    /// Locks of the transaction that started at the timestamp.
    StartTs(u64),
}

pub open spec fn filter_ok(f: LockFilter, l: LockView) -> bool {
    match f {
        LockFilter::MaxTs(m) => l.ts <= m,
        LockFilter::InStatus(st) => status_in(st@, l.ts) is Some,
        LockFilter::StartTs(t) => l.ts == t,
    }
}

/// `k` holds a lock that a scan from `start` with filter `f` returns.
pub open spec fn lock_selected(s: Store, f: LockFilter, start: Option<Seq<u8>>, k: Seq<u8>) -> bool {
    &&& s.lock_of(k) is Some
    &&& filter_ok(f, s.lock_of(k).unwrap())
    &&& match start {
        Some(st) => lex_le(st, k),
        None => true,
    }
}

pub open spec fn start_view(start: Option<Vec<u8>>) -> Option<Seq<u8>> {
    match start {
        Some(v) => Some(v@),
        None => None,
    }
}

/// The result of a lock scan: the selected locks in ascending key order,
/// all of them, or the first `limit` where `limit` is not 0 and was reached.
pub open spec fn scan_result(s: Store, f: LockFilter, start: Option<Seq<u8>>, limit: usize, out: Seq<(Vec<u8>, MvccLock)>, has_remain: bool) -> bool {
    &&& forall|i: int, j: int| 0 <= i < j < out.len() ==> lex_lt(out[i].0@, out[j].0@)
    &&& forall|i: int| 0 <= i < out.len() ==> lock_selected(s, f, start, (#[trigger] out[i]).0@) && s.lock_of(out[i].0@) == Some(out[i].1@)
    &&& has_remain == (limit > 0 && out.len() == limit)
    &&& (limit > 0 ==> out.len() <= limit)
    &&& forall|k: Seq<u8>| #[trigger] lock_selected(s, f, start, k) ==>
        (exists|i: int| 0 <= i < out.len() && out[i].0@ == k) || (has_remain && lex_lt(out.last().0@, k))
}

/// `w` is a version record of the transaction `ts`.
pub open spec fn write_of_txn(w: Option<Write>, ts: u64) -> bool {
    w matches Some(x) && x.start_ts == ts
}

/// `k` has a lock or a version record of the transaction `ts`.
pub open spec fn key_of_txn(s: Store, ts: u64, k: Seq<u8>) -> bool {
    (s.lock_of(k) matches Some(l) && l.ts == ts)
        || exists|c: u64| #[trigger] write_of_txn(s.write_of(k, c), ts)
}

/// Counters of the work a command did on the write column family.
#[derive(Clone, Copy, Debug)]
pub struct CfStatistics {
    pub seek: usize,
}

/// Counters of the work a command did.
#[derive(Clone, Copy, Debug)]
pub struct Statistics {
    pub write: CfStatistics,
}

impl Statistics {
    pub fn new() -> (r: Statistics)
        ensures
            r.write.seek == 0,
    {
        Statistics { write: CfStatistics { seek: 0 } }
    }

    /// Counts one seek on the write column family.
    pub fn add_write_seek(&mut self)
        ensures
            final(self).write.seek == (if old(self).write.seek < usize::MAX { old(self).write.seek + 1 } else { usize::MAX as int }),
    {
        self.write.seek = self.write.seek.saturating_add(1);
    }
}

/// The store: three column families held as logs of puts and deletes, where
/// the last entry for a key (and timestamp) decides.
pub struct Store {
    pub locks: Vec<LockEntry>,
    pub writes: Vec<WriteEntry>,
    pub values: Vec<ValueEntry>,
}

impl Store {
    pub open spec fn lock_of(&self, k: Seq<u8>) -> Option<LockView> {
        lock_in(self.locks@, k)
    }

    pub open spec fn write_of(&self, k: Seq<u8>, c: u64) -> Option<Write> {
        write_in(self.writes@, k, c)
    }

    pub open spec fn value_of(&self, k: Seq<u8>, t: u64) -> Option<Seq<u8>> {
        value_in(self.values@, k, t)
    }

    /// `c` is the latest commit timestamp of `k` admitted by `ts` and `start`.
    pub open spec fn is_latest_write(&self, k: Seq<u8>, ts: u64, start: Option<u64>, c: u64) -> bool {
        &&& self.write_of(k, c) is Some
        &&& write_admitted(c, self.write_of(k, c).unwrap(), ts, start)
        &&& forall|c2: u64| #[trigger] self.write_of(k, c2) is Some && write_admitted(c2, self.write_of(k, c2).unwrap(), ts, start) ==> c2 <= c
    }

    /// The latest version record of `k` admitted by `ts` and `start`, with its
    /// commit timestamp.
    pub open spec fn seek_write_spec(&self, k: Seq<u8>, ts: u64, start: Option<u64>) -> Option<(u64, Write)> {
        if exists|c: u64| self.is_latest_write(k, ts, start, c) {
            let c = choose|c: u64| self.is_latest_write(k, ts, start, c);
            Some((c, self.write_of(k, c).unwrap()))
        } else {
            None
        }
    }

    /// Whether the write column family holds a record of a key between `lo`
    /// and `hi`, both included.
    pub open spec fn has_data_in_range_spec(&self, lo: Seq<u8>, hi: Seq<u8>) -> bool {
        exists|k: Seq<u8>, c: u64| lex_le(lo, k) && lex_le(k, hi) && #[trigger] self.write_of(k, c) is Some
    }

    pub fn new() -> (r: Store)
        ensures
            forall|k: Seq<u8>| r.lock_of(k) is None,
            forall|k: Seq<u8>, c: u64| r.write_of(k, c) is None,
            forall|k: Seq<u8>, t: u64| r.value_of(k, t) is None,
    {
        Store { locks: Vec::new(), writes: Vec::new(), values: Vec::new() }
    }

    /// The lock on `key`, if any.
    pub fn load_lock(&self, key: &Vec<u8>) -> (r: Option<&MvccLock>)
        ensures
            match r {
                Some(l) => self.lock_of(key@) == Some(l@),
                None => self.lock_of(key@) is None,
            },
    {
        let mut i: usize = self.locks.len();
        assert(self.locks@.subrange(0, i as int) =~= self.locks@);
        while i > 0
            invariant
                i <= self.locks.len(),
                self.lock_of(key@) == lock_in(self.locks@.subrange(0, i as int), key@),
            decreases i,
        {
            let ghost s = self.locks@.subrange(0, i as int);
            assert(s.drop_last() =~= self.locks@.subrange(0, i - 1));
            if bytes_eq(&self.locks[i - 1].0, key) {
                return match &self.locks[i - 1].1 {
                    Some(l) => Some(l),
                    None => None,
                };
            }
            i = i - 1;
        }
        None
    }

    fn is_last_write(&self, i: usize) -> (r: bool)
        requires
            i < self.writes.len(),
        ensures
            r == last_write_entry(self.writes@, i as int),
    {
        let mut j: usize = i + 1;
        while j < self.writes.len()
            invariant
                i < j <= self.writes.len(),
                forall|m: int| i < m < j ==> !(#[trigger] self.writes@[m].0@ == self.writes@[i as int].0@
                    && self.writes@[m].1 == self.writes@[i as int].1),
            decreases self.writes.len() - j,
        {
            if self.writes[j].1 == self.writes[i].1 && bytes_eq(&self.writes[j].0, &self.writes[i].0) {
                return false;
            }
            j = j + 1;
        }
        true
    }

    /// Finds the latest version record of `key` committed at or before `ts`,
    /// of the transaction `start` where that is given.
    pub fn seek_write(&self, key: &Vec<u8>, ts: u64, start: Option<u64>, stats: &mut Statistics) -> (r: Option<(u64, Write)>)
        ensures
            r == self.seek_write_spec(key@, ts, start),
            r is Some ==> self.is_latest_write(key@, ts, start, r.unwrap().0),
            r is None ==> forall|c2: u64| #[trigger] self.write_of(key@, c2) is Some
                ==> !write_admitted(c2, self.write_of(key@, c2).unwrap(), ts, start),
            final(stats).write.seek == (if old(stats).write.seek < usize::MAX { old(stats).write.seek + 1 } else { usize::MAX as int }),
    {
        stats.add_write_seek();
        let mut best: Option<(u64, Write)> = None;
        let mut i: usize = 0;
        while i < self.writes.len()
            invariant
                i <= self.writes.len(),
                match best {
                    Some((c, w)) => self.write_of(key@, c) == Some(w) && write_admitted(c, w, ts, start),
                    None => true,
                },
                forall|j: int| 0 <= j < i && #[trigger] self.writes@[j].0@ == key@ && self.writes@[j].2 is Some
                    && write_admitted(self.writes@[j].1, self.writes@[j].2.unwrap(), ts, start)
                    && last_write_entry(self.writes@, j) ==> best is Some && self.writes@[j].1 <= best.unwrap().0,
            decreases self.writes.len() - i,
        {
            let c = self.writes[i].1;
            if let Some(w) = self.writes[i].2 {
                let ok = c <= ts && match start {
                    Some(s) => w.start_ts == s,
                    None => true,
                };
                if ok && bytes_eq(&self.writes[i].0, key) && self.is_last_write(i) {
                    let better = match best {
                        Some((bc, _)) => c >= bc,
                        None => true,
                    };
                    if better {
                        proof {
                            lemma_write_in_last(self.writes@, i as int);
                        }
                        best = Some((c, w));
                    }
                }
            }
            i = i + 1;
        }
        proof {
            assert forall|c2: u64| #[trigger] self.write_of(key@, c2) is Some && write_admitted(c2, self.write_of(key@, c2).unwrap(), ts, start)
                implies best is Some && c2 <= best.unwrap().0 by {
                lemma_write_in_some(self.writes@, key@, c2);
            }
            if let Some((c, w)) = best {
                assert(self.is_latest_write(key@, ts, start, c));
                let c1 = choose|c1: u64| self.is_latest_write(key@, ts, start, c1);
                assert(c1 <= c && c <= c1);
            }
        }
        best
    }

    /// Whether any key between `lo` and `hi`, both included, has a version record.
    pub fn has_data_in_range(&self, lo: &Vec<u8>, hi: &Vec<u8>, stats: &mut Statistics) -> (r: bool)
        ensures
            r == self.has_data_in_range_spec(lo@, hi@),
            final(stats).write.seek == (if old(stats).write.seek < usize::MAX { old(stats).write.seek + 1 } else { usize::MAX as int }),
    {
        stats.add_write_seek();
        self.any_write_in_range(lo, hi)
    }

    fn any_write_in_range(&self, lo: &Vec<u8>, hi: &Vec<u8>) -> (r: bool)
        ensures
            r == self.has_data_in_range_spec(lo@, hi@),
    {
        let mut i: usize = 0;
        while i < self.writes.len()
            invariant
                i <= self.writes.len(),
                forall|j: int| 0 <= j < i && #[trigger] self.writes@[j].2 is Some && last_write_entry(self.writes@, j)
                    ==> !(lex_le(lo@, self.writes@[j].0@) && lex_le(self.writes@[j].0@, hi@)),
            decreases self.writes.len() - i,
        {
            if self.writes[i].2.is_some() && bytes_le(lo, &self.writes[i].0) && bytes_le(&self.writes[i].0, hi)
                && self.is_last_write(i) {
                proof {
                    lemma_write_in_last(self.writes@, i as int);
                    assert(self.write_of(self.writes@[i as int].0@, self.writes@[i as int].1) is Some);
                }
                return true;
            }
            i = i + 1;
        }
        proof {
            assert forall|k: Seq<u8>, c: u64| lex_le(lo@, k) && lex_le(k, hi@) implies !(#[trigger] self.write_of(k, c) is Some) by {
                if self.write_of(k, c) is Some {
                    lemma_write_in_some(self.writes@, k, c);
                }
            }
        }
        false
    }

    /// Reads the version record of `key` committed at `commit_ts`.
    pub fn get_write(&self, key: &Vec<u8>, commit_ts: u64) -> (r: Option<Write>)
        ensures
            r == self.write_of(key@, commit_ts),
    {
        let mut i: usize = self.writes.len();
        assert(self.writes@.subrange(0, i as int) =~= self.writes@);
        while i > 0
            invariant
                i <= self.writes.len(),
                self.write_of(key@, commit_ts) == write_in(self.writes@.subrange(0, i as int), key@, commit_ts),
            decreases i,
        {
            let ghost s = self.writes@.subrange(0, i as int);
            assert(s.drop_last() =~= self.writes@.subrange(0, i - 1));
            if self.writes[i - 1].1 == commit_ts && bytes_eq(&self.writes[i - 1].0, key) {
                return self.writes[i - 1].2;
            }
            i = i - 1;
        }
        None
    }

    fn is_last_value(&self, i: usize) -> (r: bool)
        requires
            i < self.values.len(),
        ensures
            r == last_value_entry(self.values@, i as int),
    {
        let mut j: usize = i + 1;
        while j < self.values.len()
            invariant
                i < j <= self.values.len(),
                forall|m: int| i < m < j ==> !(#[trigger] self.values@[m].0@ == self.values@[i as int].0@
                    && self.values@[m].1 == self.values@[i as int].1),
            decreases self.values.len() - j,
        {
            if self.values[j].1 == self.values[i].1 && bytes_eq(&self.values[j].0, &self.values[i].0) {
                return false;
            }
            j = j + 1;
        }
        true
    }

    /// The newest value of `key` written at or before `ts`.
    fn seek_value(&self, key: &Vec<u8>, ts: u64) -> (r: Option<(u64, Vec<u8>)>)
        ensures
            match r {
                Some((t, v)) => t <= ts && self.value_of(key@, t) == Some(v@)
                    && forall|t2: u64| t2 <= ts && #[trigger] self.value_of(key@, t2) is Some ==> t2 <= t,
                None => forall|t2: u64| t2 <= ts ==> #[trigger] self.value_of(key@, t2) is None,
            },
    {
        let mut best: Option<usize> = None;
        let mut i: usize = 0;
        while i < self.values.len()
            invariant
                i <= self.values.len(),
                match best {
                    Some(b) => b < self.values.len() && self.values@[b as int].0@ == key@ && self.values@[b as int].1 <= ts
                        && self.values@[b as int].2 is Some && last_value_entry(self.values@, b as int),
                    None => true,
                },
                forall|j: int| 0 <= j < i && #[trigger] self.values@[j].0@ == key@ && self.values@[j].2 is Some
                    && self.values@[j].1 <= ts && last_value_entry(self.values@, j)
                    ==> best is Some && self.values@[j].1 <= self.values@[best.unwrap() as int].1,
            decreases self.values.len() - i,
        {
            let t = self.values[i].1;
            if t <= ts && self.values[i].2.is_some() && bytes_eq(&self.values[i].0, key) && self.is_last_value(i) {
                let better = match best {
                    Some(b) => t >= self.values[b].1,
                    None => true,
                };
                if better {
                    best = Some(i);
                }
            }
            i = i + 1;
        }
        proof {
            assert forall|t2: u64| t2 <= ts && #[trigger] self.value_of(key@, t2) is Some
                implies best is Some && t2 <= self.values@[best.unwrap() as int].1 by {
                lemma_value_in_some(self.values@, key@, t2);
                let j = choose|j: int| 0 <= j < self.values@.len() && #[trigger] self.values@[j].0@ == key@
                    && self.values@[j].1 == t2 && last_value_entry(self.values@, j);
                lemma_value_in_last(self.values@, j);
            }
        }
        match best {
            Some(b) => {
                proof {
                    lemma_value_in_last(self.values@, b as int);
                }
                let v = match &self.values[b].2 {
                    Some(v) => v.clone(),
                    None => Vec::new(),
                };
                Some((self.values[b].1, v))
            },
            None => None,
        }
    }

    /// All values of `key`, newest first.
    pub fn scan_values_in_default(&self, key: &Vec<u8>) -> (r: Vec<(u64, Vec<u8>)>)
        ensures
            values_newest_first(*self, key@, r@),
    {
        let mut out: Vec<(u64, Vec<u8>)> = Vec::new();
        let mut ts: u64 = u64::MAX;
        loop
            invariant_except_break
                forall|i: int| 0 <= i < out@.len() ==> (#[trigger] out@[i]).0 > ts,
                forall|t: u64| t > ts && #[trigger] self.value_of(key@, t) is Some ==> exists|i: int| 0 <= i < out@.len() && out@[i].0 == t,
            invariant
                forall|i: int, j: int| 0 <= i < j < out@.len() ==> out@[i].0 > out@[j].0,
                forall|i: int| 0 <= i < out@.len() ==> self.value_of(key@, #[trigger] out@[i].0) == Some(out@[i].1@),
            ensures
                values_newest_first(*self, key@, out@),
            decreases ts,
        {
            match self.seek_value(key, ts) {
                Some((t, v)) => {
                    let ghost before = out@;
                    out.push((t, v));
                    proof {
                        assert forall|t2: u64| t2 >= t && #[trigger] self.value_of(key@, t2) is Some
                            implies exists|i: int| 0 <= i < out@.len() && out@[i].0 == t2 by {
                            if t2 == t {
                                assert(out@[before.len() as int].0 == t2);
                            } else {
                                let i = choose|i: int| 0 <= i < before.len() && before[i].0 == t2;
                                assert(out@[i] == before[i]);
                            }
                        }
                    }
                    if t == 0 {
                        break;
                    }
                    ts = t - 1;
                },
                None => {
                    break;
                },
            }
        }
        out
    }

    /// All version records of `key`, newest first, one seek each.
    pub fn scan_writes(&self, key: &Vec<u8>, stats: &mut Statistics) -> (r: Vec<(u64, Write)>)
        ensures
            writes_newest_first(*self, key@, r@),
            final(stats).write.seek == crate::txn::add_seeks(old(stats).write.seek,
                r@.len() + (if r@.len() > 0 && r@.last().0 == 0 { 0nat } else { 1nat })),
    {
        let ghost s0 = stats.write.seek;
        let mut out: Vec<(u64, Write)> = Vec::new();
        let mut ts: u64 = u64::MAX;
        proof {
            crate::txn::lemma_add_seeks(s0, 0, 0);
        }
        loop
            invariant_except_break
                stats.write.seek == crate::txn::add_seeks(s0, out@.len()),
                forall|i: int| 0 <= i < out@.len() ==> (#[trigger] out@[i]).0 > ts,
                forall|c: u64| c > ts && #[trigger] self.write_of(key@, c) is Some ==> exists|i: int| 0 <= i < out@.len() && out@[i].0 == c,
            invariant
                forall|i: int, j: int| 0 <= i < j < out@.len() ==> out@[i].0 > out@[j].0,
                forall|i: int| 0 <= i < out@.len() ==> self.write_of(key@, #[trigger] out@[i].0) == Some(out@[i].1),
                s0 == old(stats).write.seek,
            ensures
                writes_newest_first(*self, key@, out@),
                stats.write.seek == crate::txn::add_seeks(s0,
                    out@.len() + (if out@.len() > 0 && out@.last().0 == 0 { 0nat } else { 1nat })),
            decreases ts,
        {
            proof {
                crate::txn::lemma_add_seeks(s0, out@.len() as nat, 1);
            }
            match self.seek_write(key, ts, None, stats) {
                Some((c, w)) => {
                    let ghost before = out@;
                    out.push((c, w));
                    proof {
                        assert forall|c2: u64| c2 >= c && #[trigger] self.write_of(key@, c2) is Some
                            implies exists|i: int| 0 <= i < out@.len() && out@[i].0 == c2 by {
                            if c2 == c {
                                assert(out@[before.len() as int].0 == c2);
                            } else if c2 > ts {
                                let i = choose|i: int| 0 <= i < before.len() && before[i].0 == c2;
                                assert(out@[i] == before[i]);
                            } else {
                                assert(write_admitted(c2, self.write_of(key@, c2).unwrap(), ts, None));
                            }
                        }
                    }
                    if c == 0 {
                        break;
                    }
                    ts = c - 1;
                },
                None => {
                    proof {
                        assert forall|c2: u64| #[trigger] self.write_of(key@, c2) is Some
                            implies exists|i: int| 0 <= i < out@.len() && out@[i].0 == c2 by {
                            if c2 <= ts {
                                assert(write_admitted(c2, self.write_of(key@, c2).unwrap(), ts, None));
                            }
                        }
                    }
                    break;
                },
            }
        }
        out
    }

    /// Applies a batch of modifications in order.
    pub fn write_batch(&mut self, mods: Vec<Modify>)
        ensures
            applied(*old(self), mods_view(mods@), *final(self)),
    {
        let ghost s0 = *self;
        let mut i: usize = 0;
        assert(mods_view(mods@.subrange(0, 0)) =~= Seq::<ModifyView>::empty());
        while i < mods.len()
            invariant
                i <= mods.len(),
                applied(s0, mods_view(mods@.subrange(0, i as int)), *self),
            decreases mods.len() - i,
        {
            let ghost ms = mods_view(mods@.subrange(0, i + 1));
            assert(ms.drop_last() =~= mods_view(mods@.subrange(0, i as int)));
            let ghost prev = *self;
            let m = mods[i].clone_modify();
            assert(ms.last() == m@);
            self.apply(m);
            proof {
                if self.locks@.len() > prev.locks@.len() {
                    assert(self.locks@.drop_last() =~= prev.locks@);
                }
                if self.writes@.len() > prev.writes@.len() {
                    assert(self.writes@.drop_last() =~= prev.writes@);
                }
                if self.values@.len() > prev.values@.len() {
                    assert(self.values@.drop_last() =~= prev.values@);
                }
                assert forall|k: Seq<u8>| #[trigger] self.lock_of(k) == lock_after(s0, ms, k) by {
                    assert(prev.lock_of(k) == lock_after(s0, ms.drop_last(), k));
                }
                assert forall|k: Seq<u8>, c: u64| #[trigger] self.write_of(k, c) == write_after(s0, ms, k, c) by {
                    assert(prev.write_of(k, c) == write_after(s0, ms.drop_last(), k, c));
                }
                assert forall|k: Seq<u8>, t: u64| #[trigger] self.value_of(k, t) == value_after(s0, ms, k, t) by {
                    assert(prev.value_of(k, t) == value_after(s0, ms.drop_last(), k, t));
                }
            }
            i = i + 1;
        }
        assert(mods@.subrange(0, i as int) =~= mods@);
    }

    fn is_last_lock(&self, i: usize) -> (r: bool)
        requires
            i < self.locks.len(),
        ensures
            r == last_lock_entry(self.locks@, i as int),
    {
        let mut j: usize = i + 1;
        while j < self.locks.len()
            invariant
                i < j <= self.locks.len(),
                forall|m: int| i < m < j ==> !(#[trigger] self.locks@[m].0@ == self.locks@[i as int].0@),
            decreases self.locks.len() - j,
        {
            if bytes_eq(&self.locks[j].0, &self.locks[i].0) {
                return false;
            }
            j = j + 1;
        }
        true
    }

    fn filter_holds(f: &LockFilter, l: &MvccLock) -> (r: bool)
        ensures
            r == filter_ok(*f, l@),
    {
        match f {
            LockFilter::MaxTs(m) => l.ts <= *m,
            LockFilter::InStatus(st) => lookup_status(st, l.ts).is_some(),
            LockFilter::StartTs(t) => l.ts == *t,
        }
    }

    /// The index of the live lock entry with the least selected key above
    /// `after` (or from `start` where `after` is `None`).
    fn next_lock(&self, f: &LockFilter, start: &Option<Vec<u8>>, after: Option<&Vec<u8>>) -> (r: Option<usize>)
        ensures
            match r {
                Some(i) => i < self.locks.len() && self.locks@[i as int].1 is Some && last_lock_entry(self.locks@, i as int)
                    && lock_selected(*self, *f, start_view(*start), self.locks@[i as int].0@)
                    && (after matches Some(a) ==> lex_lt(a@, self.locks@[i as int].0@))
                    && forall|k: Seq<u8>| #[trigger] lock_selected(*self, *f, start_view(*start), k)
                        && (after matches Some(a) ==> lex_lt(a@, k)) ==> lex_le(self.locks@[i as int].0@, k),
                None => forall|k: Seq<u8>| #[trigger] lock_selected(*self, *f, start_view(*start), k)
                    ==> (after matches Some(a) && !lex_lt(a@, k)),
            },
    {
        let mut best: Option<usize> = None;
        let mut i: usize = 0;
        while i < self.locks.len()
            invariant
                i <= self.locks.len(),
                match best {
                    Some(b) => b < self.locks.len() && self.locks@[b as int].1 is Some && last_lock_entry(self.locks@, b as int)
                        && lock_selected(*self, *f, start_view(*start), self.locks@[b as int].0@)
                        && (after matches Some(a) ==> lex_lt(a@, self.locks@[b as int].0@)),
                    None => true,
                },
                forall|j: int| 0 <= j < i && #[trigger] self.locks@[j].1 is Some && last_lock_entry(self.locks@, j)
                    && lock_selected(*self, *f, start_view(*start), self.locks@[j].0@)
                    && (after matches Some(a) ==> lex_lt(a@, self.locks@[j].0@))
                    ==> best is Some && lex_le(self.locks@[best.unwrap() as int].0@, self.locks@[j].0@),
            decreases self.locks.len() - i,
        {
            if let Some(l) = &self.locks[i].1 {
                proof {
                    if last_lock_entry(self.locks@, i as int) {
                        lemma_lock_in_last(self.locks@, i as int);
                    }
                }
                let key = &self.locks[i].0;
                let in_range = match start {
                    Some(st) => bytes_le(st, key),
                    None => true,
                };
                let above = match after {
                    Some(a) => bytes_lt(a, key),
                    None => true,
                };
                if in_range && above && Self::filter_holds(f, l) && self.is_last_lock(i) {
                    let better = match best {
                        Some(b) => !bytes_le(&self.locks[b].0, key),
                        None => true,
                    };
                    proof {
                        lemma_lex_total(key@, key@);
                        if let Some(b) = best {
                            lemma_lex_total(self.locks@[b as int].0@, key@);
                            if better {
                                assert forall|j: int| 0 <= j < i && #[trigger] self.locks@[j].1 is Some && last_lock_entry(self.locks@, j)
                                    && lock_selected(*self, *f, start_view(*start), self.locks@[j].0@)
                                    && (after matches Some(a) ==> lex_lt(a@, self.locks@[j].0@))
                                    implies lex_le(key@, self.locks@[j].0@) by {
                                    crate::bytes::lemma_lex_trans(key@, self.locks@[b as int].0@, self.locks@[j].0@);
                                }
                            }
                        }
                    }
                    if better {
                        best = Some(i);
                    }
                }
            }
            i = i + 1;
        }
        proof {
            assert forall|k: Seq<u8>| #[trigger] lock_selected(*self, *f, start_view(*start), k)
                && (after matches Some(a) ==> lex_lt(a@, k)) implies best is Some
                && lex_le(self.locks@[best.unwrap() as int].0@, k) by {
                lemma_lock_in_some(self.locks@, k);
                let j = choose|j: int| 0 <= j < self.locks@.len() && #[trigger] self.locks@[j].0@ == k && last_lock_entry(self.locks@, j);
                lemma_lock_in_last(self.locks@, j);
            }
            if best is None {
                assert forall|k: Seq<u8>| #[trigger] lock_selected(*self, *f, start_view(*start), k)
                    implies (after matches Some(a) && !lex_lt(a@, k)) by {
                    if !(after matches Some(a) && !lex_lt(a@, k)) {
                        assert(after matches Some(a) ==> lex_lt(a@, k));
                    }
                }
            }
        }
        best
    }

    /// Scans the locks that `f` selects from `start` on, in ascending key
    /// order, at most `limit` of them where `limit` is not 0; the flag tells
    /// whether the limit was reached.
    pub fn scan_locks(&self, start: &Option<Vec<u8>>, f: &LockFilter, limit: usize) -> (r: (Vec<(Vec<u8>, MvccLock)>, bool))
        ensures
            scan_result(*self, *f, start_view(*start), limit, r.0@, r.1),
    {
        let mut out: Vec<(Vec<u8>, MvccLock)> = Vec::new();
        loop
            invariant
                limit > 0 ==> out@.len() <= limit,
                forall|i: int, j: int| 0 <= i < j < out@.len() ==> lex_lt(out@[i].0@, out@[j].0@),
                forall|i: int| 0 <= i < out@.len() ==> lock_selected(*self, *f, start_view(*start), (#[trigger] out@[i]).0@)
                    && self.lock_of(out@[i].0@) == Some(out@[i].1@),
                forall|k: Seq<u8>| #[trigger] lock_selected(*self, *f, start_view(*start), k) ==>
                    (exists|i: int| 0 <= i < out@.len() && out@[i].0@ == k) || (out@.len() > 0 && lex_lt(out@.last().0@, k))
                    || out@.len() == 0,
            decreases count_above(self.locks@, if out@.len() > 0 { Some(out@.last().0@) } else { None }),
        {
            if limit > 0 && out.len() >= limit {
                return (out, true);
            }
            let after: Option<&Vec<u8>> = if out.len() > 0 {
                Some(&out[out.len() - 1].0)
            } else {
                None
            };
            match self.next_lock(f, start, after) {
                None => {
                    proof {
                        assert forall|k: Seq<u8>| #[trigger] lock_selected(*self, *f, start_view(*start), k)
                            implies (exists|i: int| 0 <= i < out@.len() && out@[i].0@ == k) by {
                            let last = out@.last().0@;
                            lemma_lex_total(last, k);
                        }
                    }
                    return (out, false);
                },
                Some(i) => {
                    let ghost before = out@;
                    let ghost m = self.locks@[i as int].0@;
                    proof {
                        lemma_lock_in_last(self.locks@, i as int);
                    }
                    let lock = match &self.locks[i].1 {
                        Some(l) => l.duplicate(),
                        None => MvccLock {
                            lock_type: crate::types::LockType::Lock,
                            primary: Vec::new(),
                            ts: 0,
                            ttl: 0,
                            for_update_ts: 0,
                            txn_size: 0,
                        },
                    };
                    out.push((self.locks[i].0.clone(), lock));
                    proof {
                        let a_old = if before.len() > 0 { Some(before.last().0@) } else { None };
                        assert forall|j: int| 0 <= j < self.locks@.len() && above(Some(m), #[trigger] self.locks@[j].0@)
                            implies above(a_old, self.locks@[j].0@) by {
                            if before.len() > 0 {
                                let p = before.last().0@;
                                let k = self.locks@[j].0@;
                                crate::bytes::lemma_lex_trans(p, m, k);
                                if p == k {
                                    lemma_lex_antisym(m, k);
                                }
                            }
                        }
                        lemma_count_drops(self.locks@, a_old, Some(m), i as int);
                        assert forall|a: int, b: int| 0 <= a < b < out@.len() implies lex_lt(out@[a].0@, out@[b].0@) by {
                            if b == before.len() {
                                let p = before.last().0@;
                                assert(out@[b - 1] == before[b - 1]);
                                if a < b - 1 {
                                    assert(out@[a] == before[a]);
                                    assert(lex_lt(before[a].0@, p));
                                    crate::bytes::lemma_lex_trans(out@[a].0@, p, m);
                                    if out@[a].0@ == m {
                                        lemma_lex_antisym(p, m);
                                    }
                                }
                            } else {
                                assert(out@[a] == before[a] && out@[b] == before[b]);
                            }
                        }
                        assert forall|k: Seq<u8>| #[trigger] lock_selected(*self, *f, start_view(*start), k) implies
                            (exists|j: int| 0 <= j < out@.len() && out@[j].0@ == k) || lex_lt(m, k) by {
                            lemma_lex_total(m, k);
                            if before.len() > 0 {
                                let p = before.last().0@;
                                lemma_lex_total(p, k);
                                if (exists|j: int| 0 <= j < before.len() && before[j].0@ == k) {
                                    let j = choose|j: int| 0 <= j < before.len() && before[j].0@ == k;
                                    assert(out@[j] == before[j]);
                                } else if lex_lt(p, k) {
                                    if lex_le(k, m) {
                                        lemma_lex_antisym(k, m);
                                        assert(out@[before.len() as int].0@ == k);
                                    }
                                } else {
                                    lemma_lex_antisym(p, k);
                                    assert(out@[before.len() - 1] == before[before.len() - 1]);
                                }
                            } else {
                                if lex_le(k, m) {
                                    lemma_lex_antisym(k, m);
                                    assert(out@[0].0@ == k);
                                }
                            }
                        }
                        assert(out@.last().0@ == m);
                    }
                },
            }
        }
    }

    /// The index of a live write entry of the transaction `ts` with the least key.
    fn first_write_of_txn(&self, ts: u64) -> (r: Option<usize>)
        ensures
            match r {
                Some(i) => i < self.writes.len() && write_of_txn(self.writes@[i as int].2, ts)
                    && last_write_entry(self.writes@, i as int)
                    && forall|k: Seq<u8>, c: u64| write_of_txn(#[trigger] self.write_of(k, c), ts)
                        ==> lex_le(self.writes@[i as int].0@, k),
                None => forall|k: Seq<u8>, c: u64| !(write_of_txn(#[trigger] self.write_of(k, c), ts)),
            },
    {
        let mut best: Option<usize> = None;
        let mut i: usize = 0;
        while i < self.writes.len()
            invariant
                i <= self.writes.len(),
                match best {
                    Some(b) => b < self.writes.len() && write_of_txn(self.writes@[b as int].2, ts)
                        && last_write_entry(self.writes@, b as int),
                    None => true,
                },
                forall|j: int| 0 <= j < i && write_of_txn((#[trigger] self.writes@[j]).2, ts)
                    && last_write_entry(self.writes@, j)
                    ==> best is Some && lex_le(self.writes@[best.unwrap() as int].0@, self.writes@[j].0@),
            decreases self.writes.len() - i,
        {
            if let Some(w) = self.writes[i].2 {
                if w.start_ts == ts && self.is_last_write(i) {
                    let key = &self.writes[i].0;
                    let better = match best {
                        Some(b) => !bytes_le(&self.writes[b].0, key),
                        None => true,
                    };
                    proof {
                        lemma_lex_total(key@, key@);
                        if let Some(b) = best {
                            lemma_lex_total(self.writes@[b as int].0@, key@);
                            if better {
                                assert forall|j: int| 0 <= j < i && write_of_txn((#[trigger] self.writes@[j]).2, ts)
                                    && last_write_entry(self.writes@, j) implies lex_le(key@, self.writes@[j].0@) by {
                                    crate::bytes::lemma_lex_trans(key@, self.writes@[b as int].0@, self.writes@[j].0@);
                                }
                            }
                        }
                    }
                    if better {
                        best = Some(i);
                    }
                }
            }
            i = i + 1;
        }
        proof {
            assert forall|k: Seq<u8>, c: u64| write_of_txn(#[trigger] self.write_of(k, c), ts)
                implies best is Some && lex_le(self.writes@[best.unwrap() as int].0@, k) by {
                lemma_write_in_some(self.writes@, k, c);
                let j = choose|j: int| 0 <= j < self.writes@.len() && #[trigger] self.writes@[j].0@ == k && self.writes@[j].1 == c
                    && self.writes@[j].2 == write_in(self.writes@, k, c) && last_write_entry(self.writes@, j);
                assert(write_of_txn(self.writes@[j].2, ts));
            }
        }
        best
    }

    /// The least key that holds a lock or a version record of the transaction `ts`.
    pub fn seek_ts(&self, ts: u64) -> (r: Option<Vec<u8>>)
        ensures
            match r {
                Some(k) => key_of_txn(*self, ts, k@) && forall|k2: Seq<u8>| #[trigger] key_of_txn(*self, ts, k2) ==> lex_le(k@, k2),
                None => forall|k2: Seq<u8>| !#[trigger] key_of_txn(*self, ts, k2),
            },
    {
        let f = LockFilter::StartTs(ts);
        let none: Option<Vec<u8>> = None;
        let l = self.next_lock(&f, &none, None);
        let w = self.first_write_of_txn(ts);
        proof {
            if let Some(i) = l {
                lemma_lock_in_last(self.locks@, i as int);
            }
            if let Some(i) = w {
                lemma_write_in_last(self.writes@, i as int);
            }
            assert forall|k2: Seq<u8>| #[trigger] key_of_txn(*self, ts, k2) implies
                (lock_selected(*self, f, start_view(none), k2)
                || exists|c: u64| write_of_txn(#[trigger] self.write_of(k2, c), ts)) by {}
        }
        let r = match (l, w) {
            (Some(i), Some(j)) => {
                if bytes_le(&self.locks[i].0, &self.writes[j].0) {
                    proof {
                        assert forall|k2: Seq<u8>| #[trigger] key_of_txn(*self, ts, k2) implies lex_le(self.locks@[i as int].0@, k2) by {
                            if !lock_selected(*self, f, start_view(none), k2) {
                                let c = choose|c: u64| write_of_txn(#[trigger] self.write_of(k2, c), ts);
                                crate::bytes::lemma_lex_trans(self.locks@[i as int].0@, self.writes@[j as int].0@, k2);
                            }
                        }
                    }
                    Some(self.locks[i].0.clone())
                } else {
                    proof {
                        lemma_lex_total(self.locks@[i as int].0@, self.writes@[j as int].0@);
                        assert(self.write_of(self.writes@[j as int].0@, self.writes@[j as int].1) is Some);
                        assert forall|k2: Seq<u8>| #[trigger] key_of_txn(*self, ts, k2) implies lex_le(self.writes@[j as int].0@, k2) by {
                            if lock_selected(*self, f, start_view(none), k2) {
                                crate::bytes::lemma_lex_trans(self.writes@[j as int].0@, self.locks@[i as int].0@, k2);
                            } else {
                                let c = choose|c: u64| write_of_txn(#[trigger] self.write_of(k2, c), ts);
                            }
                        }
                    }
                    Some(self.writes[j].0.clone())
                }
            },
            (Some(i), None) => Some(self.locks[i].0.clone()),
            (None, Some(j)) => {
                proof {
                    assert(self.write_of(self.writes@[j as int].0@, self.writes@[j as int].1) is Some);
                    assert forall|k2: Seq<u8>| #[trigger] key_of_txn(*self, ts, k2) implies lex_le(self.writes@[j as int].0@, k2) by {
                        let c = choose|c: u64| write_of_txn(#[trigger] self.write_of(k2, c), ts);
                    }
                }
                Some(self.writes[j].0.clone())
            },
            (None, None) => None,
        };
        r
    }

    /// Applies one modification.
    pub fn apply(&mut self, m: Modify)
        ensures
            final(self).locks@ == (match m {
                Modify::PutLock(k, l) => old(self).locks@.push((k, Some(l))),
                Modify::DeleteLock(k) => old(self).locks@.push((k, None)),
                _ => old(self).locks@,
            }),
            final(self).writes@ == (match m {
                Modify::PutWrite(k, c, w) => old(self).writes@.push((k, c, Some(w))),
                Modify::DeleteWrite(k, c) => old(self).writes@.push((k, c, None)),
                _ => old(self).writes@,
            }),
            final(self).values@ == (match m {
                Modify::PutValue(k, t, v) => old(self).values@.push((k, t, Some(v))),
                Modify::DeleteValue(k, t) => old(self).values@.push((k, t, None)),
                _ => old(self).values@,
            }),
    {
        match m {
            Modify::PutLock(k, l) => self.locks.push((k, Some(l))),
            Modify::DeleteLock(k) => self.locks.push((k, None)),
            Modify::PutWrite(k, c, w) => self.writes.push((k, c, Some(w))),
            Modify::DeleteWrite(k, c) => self.writes.push((k, c, None)),
            Modify::PutValue(k, t, v) => self.values.push((k, t, Some(v))),
            Modify::DeleteValue(k, t) => self.values.push((k, t, None)),
        }
    }
}

} // verus!
