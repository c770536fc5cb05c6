use vstd::prelude::*;
use crate::process::{
    Command, CommandPri, CommandTag, Context, ProcessResult, WakeUp, WriteResult, process_read_impl,
    process_write_impl, read_spec, write_request_ok, write_spec,
};
use crate::store::{Statistics, Store};
use crate::types::{Error, Lock, Modify};

verus! {

/// A running command.
pub struct Task {
    pub cid: u64,
    pub tag: CommandTag,
    pub cmd: Command,
    pub ts: u64,
    pub region_id: u64,
}

impl Task {
    /// Creates a task for a running command.
    pub fn new(cid: u64, cmd: Command) -> (r: Task)
        ensures
            r.cid == cid,
            r.tag == cmd.tag_spec(),
            r.region_id == cmd.ctx.region_id,
            r.ts == cmd.ts_spec(),
            r.cmd == cmd,
    {
        let tag = cmd.tag();
        let ts = cmd.ts();
        let region_id = cmd.ctx.region_id;
        Task { cid, tag, cmd, ts, region_id }
    }

    /// Carries the raft term of the snapshot's request, where there is one,
    /// into the command's context.
    pub fn set_term(&mut self, term: Option<u64>)
        ensures
            final(self).cmd.ctx.term == (match term {
                Some(t) => t,
                None => old(self).cmd.ctx.term,
            }),
            final(self).cmd.kind == old(self).cmd.kind,
            final(self).cmd.ctx.region_id == old(self).cmd.ctx.region_id,
            final(self).cmd.ctx.priority == old(self).cmd.ctx.priority,
            final(self).cmd.ctx.not_fill_cache == old(self).cmd.ctx.not_fill_cache,
            final(self).cmd.ctx.isolation_level == old(self).cmd.ctx.isolation_level,
            final(self).cid == old(self).cid,
            final(self).tag == old(self).tag,
            final(self).ts == old(self).ts,
            final(self).region_id == old(self).region_id,
    {
        if let Some(t) = term {
            self.cmd.ctx.term = t;
        }
    }

    pub fn cmd(&self) -> (r: &Command)
        ensures
            *r == self.cmd,
    {
        &self.cmd
    }

    pub fn priority(&self) -> (r: CommandPri)
        ensures
            r == self.cmd.ctx.priority,
    {
        self.cmd.ctx.priority
    }

    pub fn context(&self) -> (r: &Context)
        ensures
            *r == self.cmd.ctx,
    {
        &self.cmd.ctx
    }
}

/// The messages a worker posts back to the scheduler; exactly one per command.
#[derive(Debug)]
pub enum Msg {
    ReadFinished { cid: u64, pr: ProcessResult, tag: CommandTag },
    WriteFinished { cid: u64, pr: ProcessResult, result: Result<(), Error>, tag: CommandTag },
    FinishedWithErr { cid: u64, err: Error, tag: CommandTag },
    WaitForLock { cid: u64, start_ts: u64, pr: ProcessResult, lock: Lock, is_first_lock: bool, wait_timeout: i64 },
}

/// The scheduler side that receives the messages.
pub trait MsgScheduler {
    fn on_msg(&self, msg: Msg);
}

/// The waiter manager: it parks pessimistic transactions that wait for locks
/// and wakes them when the locks may be gone.
pub trait LockManager {
    fn has_waiter(&self) -> bool;

    fn wake_up(&self, lock_ts: u64, key_hashes: Option<Vec<u64>>, commit_ts: u64, is_pessimistic_txn: bool);
}

/// Posts `msg` to `scheduler`.
pub fn notify_scheduler<S: MsgScheduler>(scheduler: S, msg: Msg) {
    scheduler.on_msg(msg);
}

/// A batch that the engine must write before the command finishes.
#[derive(Debug)]
pub struct PendingWrite {
    pub cid: u64,
    pub tag: CommandTag,
    pub ctx: Context,
    pub to_be_write: Vec<Modify>,
    pub rows: usize,
    pub pr: ProcessResult,
}

/// What follows the write path: a message now, or a batch for the engine
/// whose completion posts the message.
#[derive(Debug)]
pub enum WriteStep {
    Notify(Msg),
    Submit(PendingWrite),
}

/// What follows a write command's processing: the error, the lock to wait
/// for, the finish of a command with nothing to write, or else the batch for
/// the engine with the command's context, rows and result.
pub open spec fn write_step_spec(cid: u64, ts: u64, tag: CommandTag, res: Result<WriteResult, Error>, r: WriteStep) -> bool {
    match res {
        Err(e) => r == WriteStep::Notify(Msg::FinishedWithErr { cid, err: e, tag }),
        Ok(w) => match w.lock_info {
            Some((lock, first, timeout)) => r == WriteStep::Notify(Msg::WaitForLock {
                cid,
                start_ts: ts,
                pr: w.pr,
                lock,
                is_first_lock: first,
                wait_timeout: timeout,
            }),
            None => if w.to_be_write@.len() == 0 {
                r == WriteStep::Notify(Msg::WriteFinished { cid, pr: w.pr, result: Ok(()), tag })
            } else {
                r == WriteStep::Submit(PendingWrite { cid, tag, ctx: w.ctx, to_be_write: w.to_be_write, rows: w.rows, pr: w.pr })
            },
        },
    }
}

/// The message that ends a read command: its result, or `Failed` with the
/// error.
pub open spec fn read_finished_spec(cid: u64, tag: CommandTag, res: Result<ProcessResult, Error>) -> Msg {
    Msg::ReadFinished {
        cid,
        pr: match res {
            Ok(p) => p,
            Err(e) => ProcessResult::Failed { err: e },
        },
        tag,
    }
}

pub fn read_finished(cid: u64, tag: CommandTag, res: Result<ProcessResult, Error>) -> (m: Msg)
    ensures
        m == read_finished_spec(cid, tag, res),
{
    let pr = match res {
        Ok(p) => p,
        Err(e) => ProcessResult::Failed { err: e },
    };
    Msg::ReadFinished { cid, pr, tag }
}

/// The message that ends a command whose snapshot could not be had.
pub fn snapshot_failed(cid: u64, tag: CommandTag, err: Error) -> (m: Msg)
    ensures
        m == (Msg::FinishedWithErr { cid, err, tag }),
{
    Msg::FinishedWithErr { cid, err, tag }
}

/// Decides what follows a write command's processing.
pub fn write_step(cid: u64, ts: u64, tag: CommandTag, res: Result<WriteResult, Error>) -> (r: WriteStep)
    ensures
        write_step_spec(cid, ts, tag, res, r),
{
    match res {
        Err(err) => WriteStep::Notify(Msg::FinishedWithErr { cid, err, tag }),
        Ok(w) => {
            let WriteResult { ctx, to_be_write, rows, pr, lock_info, wake_ups } = w;
            match lock_info {
                Some((lock, is_first_lock, wait_timeout)) => WriteStep::Notify(Msg::WaitForLock {
                    cid,
                    start_ts: ts,
                    pr,
                    lock,
                    is_first_lock,
                    wait_timeout,
                }),
                None => if to_be_write.len() == 0 {
                    WriteStep::Notify(Msg::WriteFinished { cid, pr, result: Ok(()), tag })
                } else {
                    WriteStep::Submit(PendingWrite { cid, tag, ctx, to_be_write, rows, pr })
                },
            }
        },
    }
}

impl PendingWrite {
    /// The message once the engine has answered `result`.
    pub fn finish(self, result: Result<(), Error>) -> (r: Msg)
        ensures
            r matches Msg::WriteFinished { cid, pr, result: res, tag } && cid == self.cid && pr == self.pr && res == result
                && tag == self.tag,
    {
        Msg::WriteFinished { cid: self.cid, pr: self.pr, result, tag: self.tag }
    }

    /// The message where the engine refused the batch.
    pub fn refused(self, err: Error) -> (r: Msg)
        ensures
            r matches Msg::FinishedWithErr { cid, err: e, tag } && cid == self.cid && e == err && tag == self.tag,
    {
        Msg::FinishedWithErr { cid: self.cid, err, tag: self.tag }
    }
}

/// Runs commands on snapshots and reports to the scheduler.
pub struct Executor<P, S: MsgScheduler, L: LockManager> {
    pub sched_pool: Option<P>,
    pub scheduler: Option<S>,
    pub lock_mgr: Option<L>,
}

impl<P, S: MsgScheduler, L: LockManager> Executor<P, S, L> {
    pub fn new(scheduler: S, pool: P, lock_mgr: Option<L>) -> (r: Self)
        ensures
            r.sched_pool == Some(pool),
            r.scheduler == Some(scheduler),
            r.lock_mgr == lock_mgr,
    {
        Executor { sched_pool: Some(pool), scheduler: Some(scheduler), lock_mgr }
    }

    pub fn take_pool(&mut self) -> (r: P)
        requires
            old(self).sched_pool is Some,
        ensures
            r == old(self).sched_pool.unwrap(),
            final(self).sched_pool is None,
            final(self).scheduler == old(self).scheduler,
            final(self).lock_mgr == old(self).lock_mgr,
    {
        self.sched_pool.take().unwrap()
    }

    pub fn clone_pool(&self) -> (r: P)
        where
            P: Clone,
        requires
            self.sched_pool is Some,
    {
        self.sched_pool.as_ref().unwrap().clone()
    }

    pub fn take_scheduler(&mut self) -> (r: S)
        requires
            old(self).scheduler is Some,
        ensures
            r == old(self).scheduler.unwrap(),
            final(self).scheduler is None,
            final(self).sched_pool == old(self).sched_pool,
            final(self).lock_mgr == old(self).lock_mgr,
    {
        self.scheduler.take().unwrap()
    }

    pub fn take_lock_mgr(&mut self) -> (r: Option<L>)
        ensures
            r == old(self).lock_mgr,
            final(self).lock_mgr is None,
            final(self).sched_pool == old(self).sched_pool,
            final(self).scheduler == old(self).scheduler,
    {
        self.lock_mgr.take()
    }

    /// Processes a read command; returns the scheduler with the
    /// `ReadFinished` message to post to it.
    pub fn process_read(self, snapshot: &Store, task: Task) -> (r: (S, Msg, Statistics))
        requires
            self.scheduler is Some,
            task.cmd.kind is MvccByKey || task.cmd.kind is MvccByStartTs || task.cmd.kind is ScanLock
                || task.cmd.kind is ResolveLock,
        ensures
            r.0 == self.scheduler.unwrap(),
            exists|res: Result<ProcessResult, Error>| (res matches Ok(p) && read_spec(task.cmd, *snapshot, p))
                && r.1 == #[trigger] read_finished_spec(task.cid, task.tag, res),
    {
        let tag = task.tag;
        let cid = task.cid;
        let ghost cmd = task.cmd;
        let mut statistics = Statistics::new();
        let res = process_read_impl(task.cmd, snapshot, &mut statistics);
        let ghost res0 = res;
        let msg = read_finished(cid, tag, res);
        let mut this = self;
        let scheduler = this.take_scheduler();
        assert(read_spec(cmd, *snapshot, res0->Ok_0));
        (scheduler, msg, statistics)
    }

    /// Processes a write command and hands the wake-ups to the waiter
    /// manager. Returns the scheduler with what follows: the message to post
    /// to it, or the batch for the engine, whose completion posts
    /// `WriteFinished`.
    pub fn process_write(self, snapshot: &Store, task: Task) -> (r: (S, WriteStep, Statistics))
        requires
            self.scheduler is Some,
            is_write_ready(task.cmd, self.lock_mgr is Some),
        ensures
            r.0 == self.scheduler.unwrap(),
            exists|has_waiter: Option<bool>, res: Result<WriteResult, Error>|
                (has_waiter is Some) == (self.lock_mgr is Some)
                && #[trigger] write_spec(task.cmd, *snapshot, has_waiter, res, Statistics { write: crate::store::CfStatistics { seek: 0 } }, r.2)
                && write_step_spec(task.cid, task.ts, task.tag, res, r.1),
    {
        let tag = task.tag;
        let cid = task.cid;
        let ts = task.ts;
        let mut statistics = Statistics::new();
        let ghost stats0 = statistics;
        let mut this = self;
        let scheduler = this.take_scheduler();
        let lock_mgr = this.take_lock_mgr();
        let has_waiter = match &lock_mgr {
            Some(lm) => Some(lm.has_waiter()),
            None => None,
        };
        let res = process_write_impl(task.cmd, snapshot, has_waiter, &mut statistics);
        let ghost res0 = res;
        let res = match res {
            Ok(w) => {
                let WriteResult { ctx, to_be_write, rows, pr, lock_info, wake_ups } = w;
                wake_up_all(&lock_mgr, wake_ups);
                Ok(WriteResult { ctx, to_be_write, rows, pr, lock_info, wake_ups: Vec::new() })
            },
            Err(e) => Err(e),
        };
        let step = write_step(cid, ts, tag, res);
        assert(stats0 == Statistics { write: crate::store::CfStatistics { seek: 0 } });
        let r = (scheduler, step, statistics);
        assert(write_step_spec(task.cid, task.ts, task.tag, res0, r.1));
        assert(write_spec(task.cmd, *snapshot, has_waiter, res0, Statistics { write: crate::store::CfStatistics { seek: 0 } }, r.2));
        r
    }
}

/// A write command that the write path takes whatever the waiter manager
/// answers.
pub open spec fn is_write_ready(cmd: Command, has_lock_mgr: bool) -> bool {
    &&& write_request_ok(cmd, if has_lock_mgr { Some(true) } else { None })
    &&& write_request_ok(cmd, if has_lock_mgr { Some(false) } else { None })
}

/// Hands each wake-up to the waiter manager, where there is one.
pub fn wake_up_all<L: LockManager>(lock_mgr: &Option<L>, wake_ups: Vec<WakeUp>) {
    if let Some(lm) = lock_mgr {
        let mut wake_ups = wake_ups;
        let n = wake_ups.len();
        let mut i: usize = 0;
        while i < n
            invariant
                wake_ups@.len() == n - i,
            decreases n - i,
        {
            let w = wake_ups.remove(0);
            lm.wake_up(w.lock_ts, w.key_hashes, w.commit_ts, w.is_pessimistic_txn);
            i = i + 1;
        }
    }
}

} // verus!
