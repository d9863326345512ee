//! The execution ledger: records of runs, their lifecycle from `running`
//! to one terminal status, retention, and counts.
use vstd::prelude::*;
use crate::error::{DatabaseError, Result};
use crate::models::{ExecutionHistory, Status};
use crate::order::{order_selected, ordered_selection, Key};
use crate::position::{find_row, has_id, index_of, invalid, lemma_index_of, not_found, opt_exists, slots, unique_ids, Slot, ID_LIMIT};
use crate::retain::{keep_where, retain_flagged};
use crate::store::lemma_keep_all;
use crate::store::{
    hist_slots, lemma_select_history, lemma_table_grow, lemma_table_push, table_ok,
    Database, COMMANDS_TABLE, EXECUTION_HISTORY_TABLE, WORKFLOWS_TABLE, WORKFLOW_STEPS_TABLE,
};

verus! {

/// How many records a history listing returns when no limit is given.
pub const EXECUTION_HISTORY_LIMIT: i64 = 100;

/// A record names a command alone, a workflow alone, or a step together
/// with its workflow and its command.
pub open spec fn valid_shape(c: Option<i64>, w: Option<i64>, s: Option<i64>) -> bool {
    (c is Some && w is Some && s is Some) || (c is Some && w is None && s is None) || (c is None
        && w is Some && s is None)
}

/// The statuses that end a run.
pub open spec fn is_terminal(s: Status) -> bool {
    s == Status::Success || s == Status::Failed || s == Status::TimedOut || s == Status::Cancelled
}

/// The record as creation stores it.
pub open spec fn new_record(h: ExecutionHistory, id: i64, now: u64) -> ExecutionHistory {
    ExecutionHistory {
        id,
        pid: None,
        status: Status::Running,
        exit_code: None,
        started_at: now,
        completed_at: None,
        ..h
    }
}

/// The record as ending it leaves it.
pub open spec fn finalized(h: ExecutionHistory, status: Status, exit_code: Option<i32>, now: u64) -> ExecutionHistory {
    ExecutionHistory { status, exit_code, completed_at: Some(now), ..h }
}

/// `a` started after `b` (the later id first when they started together).
pub open spec fn newer(a: ExecutionHistory, b: ExecutionHistory) -> bool {
    a.started_at > b.started_at || (a.started_at == b.started_at && a.id > b.id)
}

/// The record belongs to the command `owner` (or to the workflow, when `by_command` is false).
pub open spec fn owned(h: ExecutionHistory, by_command: bool, owner: i64) -> bool {
    if by_command {
        h.command_id == Some(owner)
    } else {
        h.workflow_id == Some(owner)
    }
}

/// How many records of the owner among the first `n` are newer than `h`.
pub open spec fn newer_count(hs: Seq<ExecutionHistory>, h: ExecutionHistory, by_command: bool, owner: i64, n: int) -> nat
    decreases n,
{
    if n <= 0 {
        0
    } else if owned(hs[n - 1], by_command, owner) && newer(hs[n - 1], h) {
        newer_count(hs, h, by_command, owner, n - 1) + 1
    } else {
        newer_count(hs, h, by_command, owner, n - 1)
    }
}

/// The record is among the `limit` newest of its owner; a negative limit means no limit.
pub open spec fn among_newest(hs: Seq<ExecutionHistory>, h: ExecutionHistory, by_command: bool, owner: i64, limit: i64) -> bool {
    limit < 0 || newer_count(hs, h, by_command, owner, hs.len() as int) < limit
}

/// The time `days` days before `now`, in seconds.
pub open spec fn age_cutoff(now: u64, days: i64) -> int {
    now - days * 86400
}

/// Newest first.
pub open spec fn recency_key(h: ExecutionHistory) -> Key {
    ((u64::MAX - h.started_at) as u64, (u64::MAX - h.id) as u64, 0)
}

/// How many records of the command have the status (any status when `None`).
pub open spec fn count_runs(hs: Seq<ExecutionHistory>, command_id: i64, status: Option<Status>, n: int) -> nat
    decreases n,
{
    if n <= 0 {
        0
    } else if hs[n - 1].command_id == Some(command_id) && (status is None || hs[n - 1].status == status.unwrap()) {
        count_runs(hs, command_id, status, n - 1) + 1
    } else {
        count_runs(hs, command_id, status, n - 1)
    }
}

fn newer_than(a: &ExecutionHistory, b: &ExecutionHistory) -> (r: bool)
    ensures
        r == newer(*a, *b),
{
    a.started_at > b.started_at || (a.started_at == b.started_at && a.id > b.id)
}

fn owned_by(h: &ExecutionHistory, by_command: bool, owner: i64) -> (r: bool)
    ensures
        r == owned(*h, by_command, owner),
{
    if by_command {
        match h.command_id {
            Some(c) => c == owner,
            None => false,
        }
    } else {
        match h.workflow_id {
            Some(w) => w == owner,
            None => false,
        }
    }
}

impl Database {
    fn history_row(&self, id: i64) -> (r: Option<usize>)
        requires
            unique_ids(hist_slots(self.history@)),
        ensures
            r is None <==> !has_id(hist_slots(self.history@), id),
            r matches Some(i) ==> i < self.history@.len() && self.history@[i as int].id == id
                && index_of(hist_slots(self.history@), id) == i,
    {
        let ghost ss = hist_slots(self.history@);
        let mut i: usize = 0;
        while i < self.history.len()
            invariant
                i <= self.history@.len(),
                ss == hist_slots(self.history@),
                unique_ids(ss),
                forall|k: int| 0 <= k < i ==> self.history@[k].id != id,
            decreases self.history@.len() - i,
        {
            if self.history[i].id == id {
                proof {
                    lemma_index_of(ss, i as int);
                }
                return Some(i);
            }
            i = i + 1;
        }
        proof {
            if has_id(ss, id) {
                let k = choose|k: int| 0 <= k < ss.len() && ss[k].id == id;
                assert(self.history@[k].id == id);
            }
        }
        None
    }

    /// Records the start of a run, in `running`, after checking that the
    /// rows it names exist and form one of the three allowed shapes.
    pub fn create_execution_history(&mut self, history: &ExecutionHistory) -> (r: Result<i64>)
        requires
            old(self).wf(),
        ensures
            final(self).wf(),
            ({
                let c = history.command_id;
                let w = history.workflow_id;
                let s = history.workflow_step_id;
                let cs = slots(old(self).commands@);
                let ws = slots(old(self).workflows@);
                let ss = slots(old(self).steps@);
                let refs = opt_exists(cs, c) && opt_exists(ws, w) && opt_exists(ss, s);
                &&& !opt_exists(cs, c) ==> not_found(r, COMMANDS_TABLE, c.unwrap())
                &&& opt_exists(cs, c) && !opt_exists(ws, w) ==> not_found(r, WORKFLOWS_TABLE, w.unwrap())
                &&& opt_exists(cs, c) && opt_exists(ws, w) && !opt_exists(ss, s) ==> not_found(
                    r,
                    WORKFLOW_STEPS_TABLE,
                    s.unwrap(),
                )
                &&& refs && !valid_shape(c, w, s) ==> invalid(r, "command_id/workflow_id/workflow_step_id")
                &&& r is Ok <==> refs && valid_shape(c, w, s) && old(self).has_room()
                &&& r is Err ==> *final(self) == *old(self)
                &&& r matches Ok(id) ==> {
                    &&& final(self).allocated(old(self), id)
                    &&& final(self).only_history_changed(old(self))
                    &&& final(self).history@ == old(self).history@.push(new_record(*history, id, old(self).clock))
                }
            }),
    {
        if let Some(c) = history.command_id {
            if find_row(&self.commands, c).is_none() {
                return Err(DatabaseError::NotFound { entity: COMMANDS_TABLE, id: c });
            }
        }
        if let Some(w) = history.workflow_id {
            if find_row(&self.workflows, w).is_none() {
                return Err(DatabaseError::NotFound { entity: WORKFLOWS_TABLE, id: w });
            }
        }
        if let Some(s) = history.workflow_step_id {
            if find_row(&self.steps, s).is_none() {
                return Err(DatabaseError::NotFound { entity: WORKFLOW_STEPS_TABLE, id: s });
            }
        }
        let c = history.command_id.is_some();
        let w = history.workflow_id.is_some();
        let s = history.workflow_step_id.is_some();
        if !((c && w && s) || (c && !w && !s) || (!c && w && !s)) {
            return Err(
                DatabaseError::InvalidData {
                    field: "command_id/workflow_id/workflow_step_id",
                    reason: String::from_str(
                        "Invalid combination: must be (command only), (workflow only), or (all three)",
                    ),
                },
            );
        }
        if self.next_id >= ID_LIMIT - 1 {
            return Err(DatabaseError::Internal(String::from_str("id space exhausted")));
        }
        let ghost old_db = *self;
        let id = self.next_id;
        self.next_id = self.next_id + 1;
        let now = self.clock;
        let row = ExecutionHistory {
            id,
            command_id: history.command_id,
            workflow_id: history.workflow_id,
            workflow_step_id: history.workflow_step_id,
            pid: None,
            status: Status::Running,
            exit_code: None,
            started_at: now,
            completed_at: None,
            triggered_by: history.triggered_by,
            context: crate::models::copy_text(&history.context),
        };
        let ghost mid = self.history@;
        self.history.push(row);
        proof {
            assert(hist_slots(self.history@) =~= hist_slots(mid).push(Slot { id, parent: None, position: 0 }));
            lemma_table_push(hist_slots(mid), Slot { id, parent: None, position: 0 }, old_db.next_id as int);
            lemma_table_grow(crate::store::cat_slots(self.categories@), old_db.next_id as int);
            lemma_table_grow(slots(self.groups@), old_db.next_id as int);
            lemma_table_grow(slots(self.commands@), old_db.next_id as int);
            lemma_table_grow(slots(self.workflows@), old_db.next_id as int);
            lemma_table_grow(slots(self.steps@), old_db.next_id as int);
        }
        Ok(id)
    }

    /// The record with the given id.
    pub fn get_execution_history(&self, id: i64) -> (r: Result<ExecutionHistory>)
        requires
            self.wf(),
        ensures
            r is Ok <==> has_id(hist_slots(self.history@), id),
            r is Err ==> not_found(r, EXECUTION_HISTORY_TABLE, id),
            r matches Ok(h) ==> h == self.history@[index_of(hist_slots(self.history@), id)],
    {
        match self.history_row(id) {
            None => Err(DatabaseError::NotFound { entity: EXECUTION_HISTORY_TABLE, id }),
            Some(i) => Ok(self.history[i].duplicate()),
        }
    }

    /// Stores the process id once the process has been spawned.
    pub fn update_execution_pid(&mut self, id: i64, pid: u32) -> (r: Result<()>)
        requires
            old(self).wf(),
        ensures
            final(self).wf(),
            r is Ok <==> has_id(hist_slots(old(self).history@), id),
            r is Err ==> not_found(r, EXECUTION_HISTORY_TABLE, id) && *final(self) == *old(self),
            r is Ok ==> {
                let i = index_of(hist_slots(old(self).history@), id);
                &&& final(self).only_history_changed(old(self))
                &&& final(self).next_id == old(self).next_id
                &&& final(self).settings == old(self).settings
                &&& final(self).clock == old(self).clock
                &&& final(self).history@ == old(self).history@.update(
                    i,
                    ExecutionHistory { pid: Some(pid as i64), ..old(self).history@[i] },
                )
            },
    {
        let i = match self.history_row(id) {
            None => return Err(DatabaseError::NotFound { entity: EXECUTION_HISTORY_TABLE, id }),
            Some(i) => i,
        };
        let ghost before = self.history@;
        self.history[i].pid = Some(pid as i64);
        proof {
            assert(hist_slots(self.history@) =~= hist_slots(before));
        }
        Ok(())
    }

    /// Ends a running record with a terminal status and an optional exit
    /// code, and stamps its completion time. A record that has already
    /// ended, or a status that does not end a run, is refused.
    pub fn update_execution_history_status(&mut self, id: i64, status: Status, exit_code: Option<i32>) -> (r:
        Result<()>)
        requires
            old(self).wf(),
        ensures
            final(self).wf(),
            ({
                let hs = hist_slots(old(self).history@);
                let i = index_of(hs, id);
                &&& !has_id(hs, id) ==> not_found(r, EXECUTION_HISTORY_TABLE, id)
                &&& has_id(hs, id) && !is_terminal(status) ==> invalid(r, "status")
                &&& has_id(hs, id) && old(self).history@[i].status != Status::Running ==> invalid(r, "status")
                &&& r is Ok <==> has_id(hs, id) && is_terminal(status) && old(self).history@[i].status == Status::Running
                &&& r is Err ==> *final(self) == *old(self)
                &&& r is Ok ==> {
                    &&& final(self).only_history_changed(old(self))
                    &&& final(self).next_id == old(self).next_id
                    &&& final(self).settings == old(self).settings
                    &&& final(self).clock == old(self).clock
                    &&& final(self).history@ == old(self).history@.update(
                        i,
                        finalized(old(self).history@[i], status, exit_code, old(self).clock),
                    )
                }
            }),
    {
        let i = match self.history_row(id) {
            None => return Err(DatabaseError::NotFound { entity: EXECUTION_HISTORY_TABLE, id }),
            Some(i) => i,
        };
        let terminal = match status {
            Status::Success | Status::Failed | Status::TimedOut | Status::Cancelled => true,
            _ => false,
        };
        if !terminal {
            return Err(
                DatabaseError::InvalidData {
                    field: "status",
                    reason: String::from_str("a run can only end in a terminal status"),
                },
            );
        }
        let running = match self.history[i].status {
            Status::Running => true,
            _ => false,
        };
        if !running {
            return Err(
                DatabaseError::InvalidData {
                    field: "status",
                    reason: String::from_str("the run has already ended"),
                },
            );
        }
        let now = self.clock;
        let ghost before = self.history@;
        self.history[i].status = status;
        self.history[i].exit_code = exit_code;
        self.history[i].completed_at = Some(now);
        proof {
            assert(hist_slots(self.history@) =~= hist_slots(before));
        }
        Ok(())
    }

    /// Ends a run that never spawned: `cancelled`, with no exit code.
    pub fn cancel_execution_history(&mut self, id: i64) -> (r: Result<()>)
        requires
            old(self).wf(),
        ensures
            final(self).wf(),
            ({
                let hs = hist_slots(old(self).history@);
                let i = index_of(hs, id);
                &&& !has_id(hs, id) ==> not_found(r, EXECUTION_HISTORY_TABLE, id)
                &&& has_id(hs, id) && old(self).history@[i].status != Status::Running ==> invalid(r, "status")
                &&& r is Ok <==> has_id(hs, id) && old(self).history@[i].status == Status::Running
                &&& r is Err ==> *final(self) == *old(self)
                &&& r is Ok ==> {
                    &&& final(self).only_history_changed(old(self))
                    &&& final(self).next_id == old(self).next_id
                    &&& final(self).settings == old(self).settings
                    &&& final(self).clock == old(self).clock
                    &&& final(self).history@ == old(self).history@.update(
                        i,
                        finalized(old(self).history@[i], Status::Cancelled, None, old(self).clock),
                    )
                }
            }),
    {
        self.update_execution_history_status(id, Status::Cancelled, None)
    }

    /// Deletes one record.
    pub fn delete_execution_history(&mut self, id: i64) -> (r: Result<()>)
        requires
            old(self).wf(),
        ensures
            final(self).wf(),
            r is Ok <==> has_id(hist_slots(old(self).history@), id),
            r is Err ==> not_found(r, EXECUTION_HISTORY_TABLE, id) && *final(self) == *old(self),
            r is Ok ==> {
                &&& final(self).only_history_changed(old(self))
                &&& final(self).next_id == old(self).next_id
                &&& final(self).settings == old(self).settings
                &&& final(self).clock == old(self).clock
                &&& final(self).history@ == keep_where(old(self).history@, |h: ExecutionHistory| h.id != id)
            },
    {
        if self.history_row(id).is_none() {
            return Err(DatabaseError::NotFound { entity: EXECUTION_HISTORY_TABLE, id });
        }
        let ghost before = self.history@;
        let mut keep: Vec<bool> = Vec::new();
        let mut i: usize = 0;
        while i < self.history.len()
            invariant
                before == self.history@,
                i <= before.len(),
                keep@.len() == i,
                forall|k: int| 0 <= k < i ==> keep@[k] == (before[k].id != id),
            decreases before.len() - i,
        {
            keep.push(self.history[i].id != id);
            i = i + 1;
        }
        assert(keep@ =~= Seq::new(before.len(), |k: int| (|h: ExecutionHistory| h.id != id)(before[k])));
        retain_flagged(&mut self.history, &keep);
        proof {
            lemma_select_history(before, keep@, self.next_id as int);
            let pr = |h: ExecutionHistory| h.id != id;
            let q = |h: ExecutionHistory| opt_exists(slots(self.commands@), h.command_id) && opt_exists(slots(self.workflows@), h.workflow_id) && opt_exists(slots(self.steps@), h.workflow_step_id);
            assert(self.history@ == keep_where(before, pr));
            lemma_keep_all(before, pr, q);
            assert forall|i: int| 0 <= i < self.history@.len() implies q(#[trigger] self.history@[i]) by {}
        }
        Ok(())
    }

    /// Deletes the records that started more than `days` days before the
    /// current time and are no longer running.
    pub fn cleanup_history_older_than(&mut self, days: i64) -> (r: Result<()>)
        requires
            old(self).wf(),
        ensures
            final(self).wf(),
            r is Ok,
            final(self).only_history_changed(old(self)),
            final(self).next_id == old(self).next_id,
            final(self).settings == old(self).settings,
            final(self).clock == old(self).clock,
            final(self).history@ == keep_where(
                old(self).history@,
                |h: ExecutionHistory| !(h.started_at < age_cutoff(old(self).clock, days) && h.status != Status::Running),
            ),
    {
        let ghost before = self.history@;
        let cutoff: i128 = self.clock as i128 - (days as i128) * 86400;
        assert(cutoff == age_cutoff(self.clock, days));
        let mut keep: Vec<bool> = Vec::new();
        let mut i: usize = 0;
        while i < self.history.len()
            invariant
                before == self.history@,
                i <= before.len(),
                keep@.len() == i,
                cutoff == age_cutoff(self.clock, days),
                forall|k: int| 0 <= k < i ==> keep@[k] == !(before[k].started_at < cutoff && before[k].status
                    != Status::Running),
            decreases before.len() - i,
        {
            let h = &self.history[i];
            let running = match h.status {
                Status::Running => true,
                _ => false,
            };
            keep.push(!((h.started_at as i128) < cutoff && !running));
            i = i + 1;
        }
        assert(keep@ =~= Seq::new(
            before.len(),
            |k: int| (|h: ExecutionHistory| !(h.started_at < age_cutoff(self.clock, days) && h.status != Status::Running))(before[k]),
        ));
        retain_flagged(&mut self.history, &keep);
        proof {
            lemma_select_history(before, keep@, self.next_id as int);
            let pr = |h: ExecutionHistory| !(h.started_at < age_cutoff(self.clock, days) && h.status != Status::Running);
            let q = |h: ExecutionHistory| opt_exists(slots(self.commands@), h.command_id) && opt_exists(slots(self.workflows@), h.workflow_id) && opt_exists(slots(self.steps@), h.workflow_step_id);
            assert(self.history@ == keep_where(before, pr));
            lemma_keep_all(before, pr, q);
            assert forall|i: int| 0 <= i < self.history@.len() implies q(#[trigger] self.history@[i]) by {}
        }
        Ok(())
    }

    fn count_newer(&self, h: &ExecutionHistory, by_command: bool, owner: i64) -> (r: u64)
        requires
            self.history@.len() < ID_LIMIT,
        ensures
            r == newer_count(self.history@, *h, by_command, owner, self.history@.len() as int),
            r <= self.history@.len(),
    {
        let mut c: u64 = 0;
        let mut j: usize = 0;
        while j < self.history.len()
            invariant
                j <= self.history@.len(),
                self.history@.len() < ID_LIMIT,
                c == newer_count(self.history@, *h, by_command, owner, j as int),
                c <= j,
            decreases self.history@.len() - j,
        {
            let x = &self.history[j];
            if owned_by(x, by_command, owner) && newer_than(x, h) {
                c = c + 1;
            }
            j = j + 1;
        }
        c
    }

    fn within_newest(&self, i: usize, by_command: bool, owner: i64, limit: i64) -> (r: bool)
        requires
            i < self.history@.len(),
            self.history@.len() < ID_LIMIT,
        ensures
            r == among_newest(self.history@, self.history@[i as int], by_command, owner, limit),
    {
        if limit < 0 {
            return true;
        }
        let n = self.count_newer(&self.history[i], by_command, owner);
        (n as i64) < limit
    }

    pub(crate) fn within_newest_pub(&self, i: usize, by_command: bool, owner: i64, limit: i64) -> (r: bool)
        requires
            i < self.history@.len(),
            self.history@.len() < ID_LIMIT,
        ensures
            r == among_newest(self.history@, self.history@[i as int], by_command, owner, limit),
    {
        self.within_newest(i, by_command, owner, limit)
    }

    /// Keeps only the `keep_last` newest records of a command; a negative
    /// count keeps them all.
    pub fn cleanup_command_history(&mut self, command_id: i64, keep_last: i64) -> (r: Result<()>)
        requires
            old(self).wf(),
        ensures
            final(self).wf(),
            r is Ok,
            final(self).only_history_changed(old(self)),
            final(self).next_id == old(self).next_id,
            final(self).settings == old(self).settings,
            final(self).clock == old(self).clock,
            final(self).history@ == keep_where(
                old(self).history@,
                |h: ExecutionHistory| !owned(h, true, command_id) || among_newest(old(self).history@, h, true, command_id, keep_last),
            ),
    {
        let ghost before = self.history@;
        let mut keep: Vec<bool> = Vec::new();
        let mut i: usize = 0;
        while i < self.history.len()
            invariant
                before == self.history@,
                self.wf(),
                i <= before.len(),
                keep@.len() == i,
                forall|k: int| 0 <= k < i ==> keep@[k] == (!owned(before[k], true, command_id) || among_newest(before, before[k], true, command_id, keep_last)),
            decreases before.len() - i,
        {
            let mine = owned_by(&self.history[i], true, command_id);
            let stays = !mine || self.within_newest(i, true, command_id, keep_last);
            keep.push(stays);
            i = i + 1;
        }
        assert(keep@ =~= Seq::new(
            before.len(),
            |k: int| (|h: ExecutionHistory| !owned(h, true, command_id) || among_newest(before, h, true, command_id, keep_last))(before[k]),
        ));
        retain_flagged(&mut self.history, &keep);
        proof {
            lemma_select_history(before, keep@, self.next_id as int);
            let pr = |h: ExecutionHistory| !owned(h, true, command_id) || among_newest(before, h, true, command_id, keep_last);
            let q = |h: ExecutionHistory| opt_exists(slots(self.commands@), h.command_id) && opt_exists(slots(self.workflows@), h.workflow_id) && opt_exists(slots(self.steps@), h.workflow_step_id);
            assert(self.history@ == keep_where(before, pr));
            lemma_keep_all(before, pr, q);
            assert forall|i: int| 0 <= i < self.history@.len() implies q(#[trigger] self.history@[i]) by {}
        }
        Ok(())
    }

    /// How many records of a command there are, with the given status if one is given.
    pub fn get_command_execution_stats(&self, command_id: i64, status: Option<Status>) -> (r: Result<i64>)
        requires
            self.wf(),
        ensures
            r matches Ok(n) && n == count_runs(self.history@, command_id, status, self.history@.len() as int),
    {
        let mut c: i64 = 0;
        let mut j: usize = 0;
        while j < self.history.len()
            invariant
                j <= self.history@.len(),
                self.history@.len() < ID_LIMIT,
                c == count_runs(self.history@, command_id, status, j as int),
                c <= j,
            decreases self.history@.len() - j,
        {
            let h = &self.history[j];
            let mine = match h.command_id {
                Some(x) => x == command_id,
                None => false,
            };
            let matching = match status {
                None => true,
                Some(s) => h.status == s,
            };
            if mine && matching {
                c = c + 1;
            }
            j = j + 1;
        }
        assert(c == count_runs(self.history@, command_id, status, self.history@.len() as int) as i64);
        Ok(c)
    }
}

} // verus!
