//! Scheduler: dispenses execute tasks, aborts invalidated work with
//! monotonically increasing incarnation numbers, and commits transactions in
//! index order.

use vstd::prelude::*;

use std::collections::VecDeque;

use crate::types::{ExecutionStatus, Incarnation, TxnIndex};

verus! {

/// Task for a worker to execute.
#[derive(Debug, Clone, Copy, PartialEq, Eq, Structural)]
pub enum Task {
    /// Execute a transaction at a specific incarnation.
    Execute(TxnIndex, Incarnation),
    /// No task currently available, retry later.
    Wait,
    /// All transactions are done.
    Done,
}

/// The mathematical reading of a [`Scheduler`].
pub ghost struct SchedModel {
    pub num: int,
    pub statuses: Seq<ExecutionStatus>,
    pub queue: Seq<(TxnIndex, Incarnation)>,
    pub committed: int,
    pub done: bool,
}

/// The incarnation a transaction is or was last running at, `-1` before its
/// first dispatch.
pub open spec fn inc_of(s: ExecutionStatus) -> int {
    match s {
        ExecutionStatus::Executing(i) => i as int,
        ExecutionStatus::Executed(i) => i as int,
        _ => -1,
    }
}

/// Whether a transaction currently holds an incarnation: it is executing or
/// has executed and is not yet committed.
pub open spec fn is_active(s: ExecutionStatus) -> bool {
    s is Executing || s is Executed
}

/// The scheduler's invariant over its model.
///
/// Among its clauses is the prefix-commit rule: a status is `Committed`
/// exactly when its index lies below the commit watermark, so the committed
/// indices always form a prefix of `0..N`.
pub open spec fn wf_model(m: SchedModel) -> bool {
    &&& m.statuses.len() == m.num
    &&& 0 <= m.committed <= m.num
    &&& forall|j: int|
        0 <= j < m.num ==> ((#[trigger] m.statuses[j] == ExecutionStatus::Committed) <==> j
            < m.committed)
    &&& forall|q: int|
        0 <= q < m.queue.len() ==> (#[trigger] m.queue[q]).0 < m.num && m.statuses[m.queue[q].0 as int]
            == ExecutionStatus::Pending
    &&& forall|q1: int, q2: int|
        0 <= q1 < q2 < m.queue.len() ==> (#[trigger] m.queue[q1]).0 != (#[trigger] m.queue[q2]).0
    &&& forall|j: int|
        0 <= j < m.num && (#[trigger] m.statuses[j]) == ExecutionStatus::Pending ==> exists|q: int|
            0 <= q < m.queue.len() && (#[trigger] m.queue[q]).0 == j
    &&& (m.done ==> m.committed == m.num)
}

/// Marking `idx` as executed at incarnation `inc`.
pub open spec fn set_executed(m: SchedModel, idx: int, inc: Incarnation) -> SchedModel {
    SchedModel { statuses: m.statuses.update(idx, ExecutionStatus::Executed(inc)), ..m }
}

/// Aborting one transaction: an executing or executed transaction returns
/// to `Pending` and is re-enqueued at the next incarnation; a pending or
/// committed one is left alone.
pub open spec fn abort_one(m: SchedModel, j: int) -> SchedModel {
    if 0 <= j < m.num && is_active(m.statuses[j]) {
        SchedModel {
            statuses: m.statuses.update(j, ExecutionStatus::Pending),
            queue: m.queue.push(((j as TxnIndex), (inc_of(m.statuses[j]) + 1) as Incarnation)),
            ..m
        }
    } else {
        m
    }
}

/// Aborting the first `k` transactions of an invalidation list, in order.
pub open spec fn abort_fold(m: SchedModel, l: Seq<TxnIndex>, k: int) -> SchedModel
    decreases k,
{
    if k <= 0 {
        m
    } else {
        abort_one(abort_fold(m, l, k - 1), l[k - 1] as int)
    }
}

/// The in-order commit scan: starting at the watermark, successive executed
/// transactions become committed; when the watermark reaches `N`, the
/// scheduler is done.
pub open spec fn commit_scan(m: SchedModel) -> SchedModel
    decreases m.num - m.committed when 0 <= m.committed <= m.num
{
    if m.committed < m.num && m.statuses[m.committed] is Executed {
        commit_scan(
            SchedModel {
                statuses: m.statuses.update(m.committed, ExecutionStatus::Committed),
                committed: m.committed + 1,
                ..m
            },
        )
    } else if m.committed == m.num {
        SchedModel { done: true, ..m }
    } else {
        m
    }
}

/// Scheduler state for coordinating the execution of one batch.
pub struct Scheduler {
    /// Number of transactions in the batch.
    num_txns: usize,
    /// Execution status for each transaction.
    statuses: Vec<ExecutionStatus>,
    /// Queue of transactions ready to execute.
    ready_queue: VecDeque<(TxnIndex, Incarnation)>,
    /// Lowest transaction index not yet committed.
    committed_idx: usize,
    /// Whether execution is done.
    done: bool,
}

impl Scheduler {
    /// The mathematical state of the scheduler.
    pub closed spec fn model(self) -> SchedModel {
        SchedModel {
            num: self.num_txns as int,
            statuses: self.statuses@,
            queue: self.ready_queue@,
            committed: self.committed_idx as int,
            done: self.done,
        }
    }

    /// The scheduler's invariant.
    pub open spec fn wf(self) -> bool {
        wf_model(self.model())
    }

    /// Creates a new scheduler for a batch: every transaction starts
    /// `Pending`, queued in index order at incarnation 0.
    pub fn new(num_txns: usize) -> (r: Self)
        ensures
            r.wf(),
            r.model().num == num_txns,
            r.model().statuses == Seq::new(num_txns as nat, |j: int| ExecutionStatus::Pending),
            r.model().queue.len() == num_txns,
            forall|q: int|
                0 <= q < num_txns ==> (#[trigger] r.model().queue[q]) == ((q as TxnIndex), (
                0 as Incarnation)),
            r.model().committed == 0,
            !r.model().done,
    {
        let mut ready_queue: VecDeque<(TxnIndex, Incarnation)> = VecDeque::new();
        let mut statuses: Vec<ExecutionStatus> = Vec::new();
        for idx in 0..num_txns
            invariant
                ready_queue@.len() == idx,
                statuses@.len() == idx,
                forall|q: int| 0 <= q < idx ==> (#[trigger] ready_queue@[q]) == ((q as TxnIndex), (0 as Incarnation)),
                forall|q: int| 0 <= q < idx ==> (#[trigger] statuses@[q]) == ExecutionStatus::Pending,
        {
            ready_queue.push_back((idx, 0));
            statuses.push(ExecutionStatus::Pending);
        }
        let r = Self { num_txns, statuses, ready_queue, committed_idx: 0, done: false };
        proof {
            assert(r.model().statuses =~= Seq::new(
                num_txns as nat,
                |j: int| ExecutionStatus::Pending,
            ));
            let m = r.model();
            assert forall|j: int|
                0 <= j < m.num && (#[trigger] m.statuses[j])
                    == ExecutionStatus::Pending implies exists|q: int|
                0 <= q < m.queue.len() && (#[trigger] m.queue[q]).0 == j by {
                assert(m.queue[j] == ((j as TxnIndex), (0 as Incarnation)));
            }
        }
        r
    }

    /// Gets the next task for a worker: `Done` once the batch has finished,
    /// else the front of the ready queue (marking it `Executing`), else
    /// `Wait` while other transactions are still in flight.
    pub fn next_task(&mut self) -> (t: Task)
        requires
            old(self).wf(),
        ensures
            final(self).wf(),
            final(self).model().num == old(self).model().num,
            ({
                let m = old(self).model();
                if m.done {
                    t == Task::Done && final(self).model() == m
                } else if m.queue.len() > 0 {
                    t == Task::Execute(m.queue[0].0, m.queue[0].1) && final(self).model() == (
                    SchedModel {
                        statuses: m.statuses.update(
                            m.queue[0].0 as int,
                            ExecutionStatus::Executing(m.queue[0].1),
                        ),
                        queue: m.queue.drop_first(),
                        ..m
                    })
                } else if m.committed == m.num {
                    t == Task::Done && final(self).model() == (SchedModel { done: true, ..m })
                } else {
                    t == Task::Wait && final(self).model() == m
                }
            }),
    {
        let ghost m = self.model();
        if self.done {
            return Task::Done;
        }
        match self.ready_queue.pop_front() {
            Some((txn_idx, incarnation)) => {
                self.statuses.set(txn_idx, ExecutionStatus::Executing(incarnation));
                proof {
                    assert(m.queue.subrange(1, m.queue.len() as int) =~= m.queue.drop_first());
                    let m2 = self.model();
                    assert forall|j: int|
                        0 <= j < m2.num implies ((#[trigger] m2.statuses[j]
                        == ExecutionStatus::Committed) <==> j < m2.committed) by {
                        if j != txn_idx {
                            assert(m2.statuses[j] == m.statuses[j]);
                        }
                    }
                    assert forall|q: int|
                        0 <= q < m2.queue.len() implies (#[trigger] m2.queue[q]).0 < m2.num
                            && m2.statuses[m2.queue[q].0 as int] == ExecutionStatus::Pending by {
                        assert(m2.queue[q] == m.queue[q + 1]);
                        assert(m.queue[0].0 != m.queue[q + 1].0);
                    }
                    assert forall|j: int|
                        0 <= j < m2.num && (#[trigger] m2.statuses[j])
                            == ExecutionStatus::Pending implies exists|q: int|
                        0 <= q < m2.queue.len() && (#[trigger] m2.queue[q]).0 == j by {
                        assert(m.statuses[j] == ExecutionStatus::Pending);
                        let q = choose|q: int|
                            0 <= q < m.queue.len() && (#[trigger] m.queue[q]).0 == j;
                        assert(q != 0);
                        assert(m2.queue[q - 1] == m.queue[q]);
                    }
                }
                Task::Execute(txn_idx, incarnation)
            },
            None => {
                if self.committed_idx >= self.num_txns {
                    self.done = true;
                    return Task::Done;
                }
                Task::Wait
            },
        }
    }

    /// Aborts a transaction: an executing or executed one returns to
    /// `Pending` and is re-enqueued at the next incarnation; a pending or
    /// committed one is left alone.
    pub fn abort_transaction(&mut self, txn_idx: TxnIndex)
        requires
            old(self).wf(),
            txn_idx < old(self).model().num,
            inc_of(old(self).model().statuses[txn_idx as int]) < usize::MAX,
        ensures
            final(self).wf(),
            final(self).model() == abort_one(old(self).model(), txn_idx as int),
    {
        let ghost m = self.model();
        let status = self.statuses[txn_idx];
        match status {
            ExecutionStatus::Executing(incarnation) | ExecutionStatus::Executed(incarnation) => {
                let new_incarnation = incarnation + 1;
                self.statuses.set(txn_idx, ExecutionStatus::Pending);
                self.ready_queue.push_back((txn_idx, new_incarnation));
                proof {
                    let m2 = self.model();
                    assert(m2 == abort_one(m, txn_idx as int));
                    assert forall|j: int|
                        0 <= j < m2.num implies ((#[trigger] m2.statuses[j]
                        == ExecutionStatus::Committed) <==> j < m2.committed) by {
                        if j != txn_idx {
                            assert(m2.statuses[j] == m.statuses[j]);
                        }
                    }
                    assert forall|q: int|
                        0 <= q < m2.queue.len() implies (#[trigger] m2.queue[q]).0 < m2.num
                            && m2.statuses[m2.queue[q].0 as int] == ExecutionStatus::Pending by {
                        if q < m.queue.len() {
                            assert(m2.queue[q] == m.queue[q]);
                            assert(m.queue[q].0 != txn_idx);
                        }
                    }
                    assert forall|q1: int, q2: int| 0 <= q1 < q2 < m2.queue.len() implies (
                    #[trigger] m2.queue[q1]).0 != (#[trigger] m2.queue[q2]).0 by {
                        if q2 == m2.queue.len() - 1 {
                            assert(m2.queue[q1] == m.queue[q1]);
                            assert(m.statuses[m.queue[q1].0 as int] == ExecutionStatus::Pending);
                        } else {
                            assert(m2.queue[q1] == m.queue[q1]);
                            assert(m2.queue[q2] == m.queue[q2]);
                        }
                    }
                    assert forall|j: int|
                        0 <= j < m2.num && (#[trigger] m2.statuses[j])
                            == ExecutionStatus::Pending implies exists|q: int|
                        0 <= q < m2.queue.len() && (#[trigger] m2.queue[q]).0 == j by {
                        if j == txn_idx {
                            assert(m2.queue[m2.queue.len() - 1].0 == j);
                        } else {
                            assert(m.statuses[j] == ExecutionStatus::Pending);
                            let q = choose|q: int|
                                0 <= q < m.queue.len() && (#[trigger] m.queue[q]).0 == j;
                            assert(m2.queue[q] == m.queue[q]);
                        }
                    }
                }
            },
            _ => {
                proof {
                    assert(self.model() == abort_one(m, txn_idx as int));
                }
            },
        }
    }

    /// Tries to commit transactions in order: starting at the watermark,
    /// each executed transaction in turn becomes committed; reaching `N`
    /// sets the done flag.
    fn try_commit_transactions(&mut self)
        requires
            old(self).wf(),
        ensures
            final(self).wf(),
            final(self).model() == commit_scan(old(self).model()),
    {
        loop
            invariant
                self.wf(),
                commit_scan(old(self).model()) == commit_scan(self.model()),
            ensures
                self.wf(),
                self.model() == commit_scan(old(self).model()),
            decreases self.model().num - self.model().committed,
        {
            let ghost m = self.model();
            if self.committed_idx < self.num_txns {
                let is_executed = match self.statuses[self.committed_idx] {
                    ExecutionStatus::Executed(_) => true,
                    _ => false,
                };
                if is_executed {
                    self.statuses.set(self.committed_idx, ExecutionStatus::Committed);
                    self.committed_idx = self.committed_idx + 1;
                    proof {
                        let m2 = self.model();
                        assert forall|j: int|
                            0 <= j < m2.num implies ((#[trigger] m2.statuses[j]
                            == ExecutionStatus::Committed) <==> j < m2.committed) by {
                            if j != m.committed {
                                assert(m2.statuses[j] == m.statuses[j]);
                            }
                        }
                        assert forall|q: int|
                            0 <= q < m2.queue.len() implies (#[trigger] m2.queue[q]).0 < m2.num
                                && m2.statuses[m2.queue[q].0 as int]
                                == ExecutionStatus::Pending by {
                            assert(m.statuses[m.queue[q].0 as int] == ExecutionStatus::Pending);
                        }
                        assert forall|j: int|
                            0 <= j < m2.num && (#[trigger] m2.statuses[j])
                                == ExecutionStatus::Pending implies exists|q: int|
                            0 <= q < m2.queue.len() && (#[trigger] m2.queue[q]).0 == j by {
                            assert(m.statuses[j] == ExecutionStatus::Pending);
                        }
                        assert(commit_scan(m) == commit_scan(m2));
                    }
                } else {
                    proof {
                        assert(commit_scan(m) == m);
                    }
                    return ;
                }
            } else {
                self.done = true;
                proof {
                    assert(self.model() == commit_scan(m));
                }
                return ;
            }
        }
    }

    /// Marks a transaction as executed at its incarnation, aborts every
    /// transaction in the invalidation list, then commits in order whatever
    /// the executed prefix allows.
    pub fn finish_execution(
        &mut self,
        txn_idx: TxnIndex,
        incarnation: Incarnation,
        invalidated: Vec<TxnIndex>,
    )
        requires
            old(self).wf(),
            txn_idx < old(self).model().num,
            old(self).model().statuses[txn_idx as int] == ExecutionStatus::Executing(incarnation),
            forall|q: int|
                0 <= q < invalidated@.len() ==> (#[trigger] invalidated@[q]) < old(
                    self,
                ).model().num && inc_of(
                    old(self).model().statuses[invalidated@[q] as int],
                ) < usize::MAX - 1,
        ensures
            final(self).wf(),
            final(self).model() == commit_scan(
                abort_fold(
                    set_executed(old(self).model(), txn_idx as int, incarnation),
                    invalidated@,
                    invalidated@.len() as int,
                ),
            ),
    {
        let ghost m0 = self.model();
        let ghost m1 = set_executed(m0, txn_idx as int, incarnation);
        self.statuses.set(txn_idx, ExecutionStatus::Executed(incarnation));
        proof {
            let m2 = self.model();
            assert(m2 == m1);
            assert forall|j: int|
                0 <= j < m2.num implies ((#[trigger] m2.statuses[j] == ExecutionStatus::Committed)
                <==> j < m2.committed) by {
                if j != txn_idx {
                    assert(m2.statuses[j] == m0.statuses[j]);
                }
            }
            assert forall|q: int|
                0 <= q < m2.queue.len() implies (#[trigger] m2.queue[q]).0 < m2.num
                    && m2.statuses[m2.queue[q].0 as int] == ExecutionStatus::Pending by {
                assert(m0.statuses[m0.queue[q].0 as int] == ExecutionStatus::Pending);
            }
            assert forall|j: int|
                0 <= j < m2.num && (#[trigger] m2.statuses[j])
                    == ExecutionStatus::Pending implies exists|q: int|
                0 <= q < m2.queue.len() && (#[trigger] m2.queue[q]).0 == j by {
                assert(m0.statuses[j] == ExecutionStatus::Pending);
            }
        }
        let n_inv = invalidated.len();
        for k in 0..n_inv
            invariant
                n_inv == invalidated@.len(),
                self.wf(),
                self.model() == abort_fold(m1, invalidated@, k as int),
                self.model().num == m1.num,
                forall|q: int|
                    0 <= q < invalidated@.len() ==> (#[trigger] invalidated@[q]) < m1.num && inc_of(
                        m1.statuses[invalidated@[q] as int],
                    ) < usize::MAX - 1,
                forall|j: int|
                    0 <= j < m1.num ==> inc_of(#[trigger] self.model().statuses[j]) <= inc_of(
                        m1.statuses[j],
                    ) + 1,
        {
            let j = invalidated[k];
            proof {
                assert(inc_of(self.model().statuses[j as int]) <= inc_of(m1.statuses[j as int])
                    + 1);
            }
            self.abort_transaction(j);
            proof {
                assert forall|jj: int|
                    0 <= jj < m1.num implies inc_of(#[trigger] self.model().statuses[jj]) <= inc_of(
                    m1.statuses[jj],
                ) + 1 by {
                    let prev = abort_fold(m1, invalidated@, k as int);
                    if jj != j as int {
                        assert(self.model().statuses[jj] == prev.statuses[jj]);
                    }
                }
            }
        }
        self.try_commit_transactions();
    }

    /// Whether a transaction has been committed.
    pub fn is_committed(&self, txn_idx: TxnIndex) -> (r: bool)
        requires
            self.wf(),
            txn_idx < self.model().num,
        ensures
            r == (self.model().statuses[txn_idx as int] == ExecutionStatus::Committed),
    {
        match self.statuses[txn_idx] {
            ExecutionStatus::Committed => true,
            _ => false,
        }
    }

    /// The current status of a transaction.
    pub fn get_status(&self, txn_idx: TxnIndex) -> (r: ExecutionStatus)
        requires
            self.wf(),
            txn_idx < self.model().num,
        ensures
            r == self.model().statuses[txn_idx as int],
    {
        self.statuses[txn_idx]
    }

    /// Whether all transactions are done.
    pub fn is_done(&self) -> (r: bool)
        requires
            self.wf(),
        ensures
            r == self.model().done,
    {
        self.done
    }
}

/// How many statuses of `s` are `Pending`.
pub open spec fn count_pending(s: Seq<ExecutionStatus>) -> int
    decreases s.len(),
{
    if s.len() == 0 {
        0
    } else {
        count_pending(s.drop_last()) + if s.last() is Pending {
            1int
        } else {
            0int
        }
    }
}

/// How many statuses of `s` are `Executing`.
pub open spec fn count_executing(s: Seq<ExecutionStatus>) -> int
    decreases s.len(),
{
    if s.len() == 0 {
        0
    } else {
        count_executing(s.drop_last()) + if s.last() is Executing {
            1int
        } else {
            0int
        }
    }
}

/// How many statuses of `s` are `Executed`.
pub open spec fn count_executed(s: Seq<ExecutionStatus>) -> int
    decreases s.len(),
{
    if s.len() == 0 {
        0
    } else {
        count_executed(s.drop_last()) + if s.last() is Executed {
            1int
        } else {
            0int
        }
    }
}

/// How many statuses of `s` are `Committed`.
pub open spec fn count_committed(s: Seq<ExecutionStatus>) -> int
    decreases s.len(),
{
    if s.len() == 0 {
        0
    } else {
        count_committed(s.drop_last()) + if s.last() is Committed {
            1int
        } else {
            0int
        }
    }
}

/// The incarnations held by the executing and executed transactions of `s`,
/// counted from one.
pub open spec fn total_incs(s: Seq<ExecutionStatus>) -> int
    decreases s.len(),
{
    if s.len() == 0 {
        0
    } else {
        total_incs(s.drop_last()) + if is_active(s.last()) {
            inc_of(s.last()) + 1
        } else {
            0int
        }
    }
}

/// A prefix of the statuses carries at most the whole incarnation count.
proof fn lemma_total_incs_prefix(s: Seq<ExecutionStatus>, i: int)
    requires
        0 <= i <= s.len(),
    ensures
        total_incs(s.take(i)) <= total_incs(s),
    decreases s.len() - i,
{
    if i == s.len() {
        assert(s.take(i) =~= s);
    } else {
        lemma_total_incs_prefix(s, i + 1);
        assert(s.take(i + 1).drop_last() =~= s.take(i));
        assert(s.take(i + 1).last() == s[i]);
    }
}

/// Statistics about scheduler state.
#[derive(Debug, Clone, Copy, PartialEq, Eq, Structural)]
pub struct SchedulerStats {
    pub pending: usize,
    pub executing: usize,
    pub executed: usize,
    pub committed: usize,
    pub total_incarnations: usize,
}

impl Scheduler {
    /// Counts the transactions in each state, and the total incarnations
    /// held by executing and executed transactions, counted from one.
    pub fn stats(&self) -> (r: SchedulerStats)
        requires
            self.wf(),
            total_incs(self.model().statuses) <= usize::MAX,
        ensures
            r.pending == count_pending(self.model().statuses),
            r.executing == count_executing(self.model().statuses),
            r.executed == count_executed(self.model().statuses),
            r.committed == count_committed(self.model().statuses),
            r.total_incarnations == total_incs(self.model().statuses),
    {
        let ghost s = self.model().statuses;
        let mut pending: usize = 0;
        let mut executing: usize = 0;
        let mut executed: usize = 0;
        let mut committed: usize = 0;
        let mut total_incarnations: usize = 0;
        let n = self.statuses.len();
        proof {
            assert(s.take(0) =~= Seq::<ExecutionStatus>::empty());
        }
        for i in 0..n
            invariant
                n == self.statuses@.len(),
                s == self.model().statuses,
                s == self.statuses@,
                total_incs(s) <= usize::MAX,
                pending as int == count_pending(s.take(i as int)),
                executing as int == count_executing(s.take(i as int)),
                executed as int == count_executed(s.take(i as int)),
                committed as int == count_committed(s.take(i as int)),
                total_incarnations as int == total_incs(s.take(i as int)),
                pending <= i && executing <= i && executed <= i && committed <= i,
        {
            proof {
                assert(s.take(i as int + 1).drop_last() =~= s.take(i as int));
                assert(s.take(i as int + 1).last() == s[i as int]);
                lemma_total_incs_prefix(s, i as int + 1);
            }
            match self.statuses[i] {
                ExecutionStatus::Pending => {
                    pending = pending + 1;
                },
                ExecutionStatus::Executing(inc) => {
                    executing = executing + 1;
                    total_incarnations = total_incarnations + inc;
                    total_incarnations = total_incarnations + 1;
                },
                ExecutionStatus::Executed(inc) => {
                    executed = executed + 1;
                    total_incarnations = total_incarnations + inc;
                    total_incarnations = total_incarnations + 1;
                },
                ExecutionStatus::Committed => {
                    committed = committed + 1;
                },
            }
        }
        proof {
            assert(s.take(n as int) =~= s);
        }
        SchedulerStats { pending, executing, executed, committed, total_incarnations }
    }
}

/// Aborting a list keeps the status sequence aligned with the batch size.
proof fn lemma_abort_fold_keeps_len(m: SchedModel, l: Seq<TxnIndex>, k: int)
    requires
        m.statuses.len() == m.num,
    ensures
        abort_fold(m, l, k).statuses.len() == abort_fold(m, l, k).num,
        abort_fold(m, l, k).num == m.num,
    decreases k,
{
    if k > 0 {
        lemma_abort_fold_keeps_len(m, l, k - 1);
    }
}

/// Aborting a list of transactions never touches a committed one, nor the
/// watermark.
proof fn lemma_abort_fold_keeps_committed(m: SchedModel, l: Seq<TxnIndex>, k: int, j: int)
    requires
        m.statuses.len() == m.num,
        0 <= j < m.statuses.len(),
        m.statuses[j] == ExecutionStatus::Committed,
    ensures
        ({
            let mf = abort_fold(m, l, k);
            &&& mf.statuses.len() == m.statuses.len()
            &&& mf.statuses[j] == ExecutionStatus::Committed
            &&& mf.committed == m.committed
            &&& mf.num == m.num
        }),
    decreases k,
{
    if k > 0 {
        lemma_abort_fold_keeps_committed(m, l, k - 1, j);
        let mp = abort_fold(m, l, k - 1);
        assert(mp.statuses.len() == mp.num) by {
            lemma_abort_fold_keeps_len(m, l, k - 1);
        }
        if 0 <= l[k - 1] < mp.num && is_active(mp.statuses[l[k - 1] as int]) {
            assert(l[k - 1] != j);
            assert(abort_one(mp, l[k - 1] as int).statuses[j] == mp.statuses[j]);
        }
    }
}

/// The commit scan only adds to the committed set and only advances the
/// watermark.
proof fn lemma_commit_scan_keeps_committed(m: SchedModel, j: int)
    requires
        0 <= m.committed <= m.num,
        m.statuses.len() == m.num,
        0 <= j < m.num,
        m.statuses[j] == ExecutionStatus::Committed,
    ensures
        commit_scan(m).statuses[j] == ExecutionStatus::Committed,
        commit_scan(m).committed >= m.committed,
    decreases m.num - m.committed,
{
    if m.committed < m.num && m.statuses[m.committed] is Executed {
        let m2 = SchedModel {
            statuses: m.statuses.update(m.committed, ExecutionStatus::Committed),
            committed: m.committed + 1,
            ..m
        };
        lemma_commit_scan_keeps_committed(m2, j);
    }
}

/// Commit only advances: across a full finish-execution step - marking a
/// transaction executed, aborting an invalidation list, and running the
/// in-order commit scan - a committed transaction stays committed and the
/// watermark never moves back.
pub proof fn lemma_commit_monotone(
    m: SchedModel,
    idx: int,
    inc: Incarnation,
    l: Seq<TxnIndex>,
    k: int,
    j: int,
)
    requires
        0 <= m.committed <= m.num,
        m.statuses.len() == m.num,
        0 <= j < m.num,
        m.statuses[j] == ExecutionStatus::Committed,
        0 <= idx < m.num,
        m.statuses[idx] is Executing,
    ensures
        ({
            let mf = commit_scan(abort_fold(set_executed(m, idx, inc), l, k));
            &&& mf.statuses[j] == ExecutionStatus::Committed
            &&& mf.committed >= m.committed
        }),
{
    let m1 = set_executed(m, idx, inc);
    assert(idx != j);
    assert(m1.statuses[j] == ExecutionStatus::Committed);
    lemma_abort_fold_keeps_committed(m1, l, k, j);
    let m2 = abort_fold(m1, l, k);
    lemma_commit_scan_keeps_committed(m2, j);
}

/// Prefix commit: in every well-formed scheduler state, the committed
/// indices form a prefix of `0..N` — below any committed transaction,
/// everything is committed.
pub proof fn lemma_committed_prefix(m: SchedModel, j1: int, j2: int)
    requires
        wf_model(m),
        0 <= j1 <= j2 < m.num,
        m.statuses[j2] == ExecutionStatus::Committed,
    ensures
        m.statuses[j1] == ExecutionStatus::Committed,
{
    assert(j2 < m.committed);
}

/// Incarnation monotonicity: aborting a transaction that ran at incarnation
/// `i` re-enqueues it at exactly `i + 1`, and that is the only queue entry
/// for it — so successive Execute tasks for one TxnIndex carry strictly
/// increasing incarnation numbers.
pub proof fn lemma_abort_bumps_incarnation(m: SchedModel, j: int)
    requires
        wf_model(m),
        0 <= j < m.num,
        is_active(m.statuses[j]),
        inc_of(m.statuses[j]) < usize::MAX,
    ensures
        ({
            let m2 = abort_one(m, j);
            &&& m2.queue.len() == m.queue.len() + 1
            &&& m2.queue.last() == ((j as TxnIndex), (inc_of(m.statuses[j]) + 1) as Incarnation)
            &&& inc_of(m.statuses[j]) + 1 > inc_of(m.statuses[j])
            &&& forall|q: int|
                0 <= q < m2.queue.len() && (#[trigger] m2.queue[q]).0 == j ==> m2.queue[q].1
                    == inc_of(m.statuses[j]) + 1
        }),
{
    let m2 = abort_one(m, j);
    assert forall|q: int|
        0 <= q < m2.queue.len() && (#[trigger] m2.queue[q]).0 == j implies m2.queue[q].1 == inc_of(
        m.statuses[j],
    ) + 1 by {
        if q < m.queue.len() {
            assert(m2.queue[q] == m.queue[q]);
            assert(m.statuses[m.queue[q].0 as int] == ExecutionStatus::Pending);
        }
    }
}

} // verus!
