//! Read-side queries: filtered listings in position order, search, counts,
//! subtrees and paths, and history listings.
use vstd::prelude::*;
use crate::error::{DatabaseError, Result};
use crate::hierarchy::{descends, mark_descendants};
use crate::ledger::{among_newest, owned, recency_key, EXECUTION_HISTORY_LIMIT};
use crate::models::{Category, Command, ExecutionHistory, Group, Status, Workflow, WorkflowStep};
use crate::order::{order_selected, ordered_selection, distinct_selected, Key};
use crate::position::{find_row, has_id, index_of, invalid, slots, Positioned, Slot, ID_LIMIT};
use crate::store::{hist_slots, table_ok, Database, GROUPS_TABLE};
use crate::naming::{by_name, order_by_name};
use crate::text::{contains_folded, matches_folded};

verus! {

/// Position order, ties broken by id.
pub open spec fn pos_key(s: Slot) -> Key {
    (s.position as u64, s.id as u64, 0)
}

pub open spec fn pos_keys(ss: Seq<Slot>) -> Seq<Key> {
    Seq::new(ss.len(), |i: int| pos_key(ss[i]))
}

pub open spec fn flags<T>(rows: Seq<T>, p: spec_fn(T) -> bool) -> Seq<bool> {
    Seq::new(rows.len(), |i: int| p(rows[i]))
}

pub proof fn lemma_pos_keys_distinct(ss: Seq<Slot>, next: int, sel: Seq<bool>)
    requires
        table_ok(ss, next),
        sel.len() == ss.len(),
    ensures
        distinct_selected(pos_keys(ss), sel),
{
    assert forall|i: int, j: int| 0 <= i < ss.len() && 0 <= j < ss.len() && i != j && sel[i] && sel[j] implies
        pos_keys(ss)[i] != pos_keys(ss)[j] by {
        assert(ss[i].id != ss[j].id);
        assert(0 < ss[i].id && 0 < ss[j].id);
    }
}

fn pos_keys_of<T: Positioned>(rows: &Vec<T>) -> (r: Vec<Key>)
    requires
        crate::position::positions_in_range(slots(rows@)),
    ensures
        r@ == pos_keys(slots(rows@)),
{
    let mut out: Vec<Key> = Vec::new();
    let mut i: usize = 0;
    while i < rows.len()
        invariant
            i <= rows@.len(),
            crate::position::positions_in_range(slots(rows@)),
            out@ == pos_keys(slots(rows@)).subrange(0, i as int),
        decreases rows@.len() - i,
    {
        let s = &rows[i];
        proof {
            assert(slots(rows@)[i as int] == rows@[i as int].slot());
        }
        out.push((s.position() as u64, s.id() as u64, 0));
        i = i + 1;
        assert(out@ =~= pos_keys(slots(rows@)).subrange(0, i as int));
    }
    assert(out@ =~= pos_keys(slots(rows@)));
    out
}

/// The commands of one group (or of none), narrowed by category and favourite flag.
pub open spec fn command_filter(group_id: Option<i64>, category_id: Option<i64>, favorites_only: bool) -> spec_fn(Command) -> bool {
    |c: Command| c.group_id == group_id && (category_id is None || c.category_id == category_id) && (!favorites_only || c.is_favorite)
}

pub open spec fn group_filter(parent_id: Option<i64>, category_id: Option<i64>, favorites_only: bool) -> spec_fn(Group) -> bool {
    |g: Group| g.parent_group_id == parent_id && (category_id is None || g.category_id == category_id) && (!favorites_only || g.is_favorite)
}

pub open spec fn workflow_filter(category_id: Option<i64>, favorites_only: bool) -> spec_fn(Workflow) -> bool {
    |w: Workflow| (category_id is None || w.category_id == category_id) && (!favorites_only || w.is_favorite)
}

pub open spec fn step_filter(workflow_id: Option<i64>, command_id: Option<i64>, enabled_only: bool) -> spec_fn(WorkflowStep) -> bool {
    |s: WorkflowStep| (workflow_id is None || Some(s.workflow_id) == workflow_id) && (command_id is None || Some(s.command_id) == command_id) && (!enabled_only || s.enabled)
}

fn opt_eq(a: Option<i64>, b: Option<i64>) -> (r: bool)
    ensures
        r == (a == b),
{
    match (a, b) {
        (Some(x), Some(y)) => x == y,
        (None, None) => true,
        _ => false,
    }
}

impl Database {
    /// The commands of a group (or those in no group), narrowed by category
    /// and favourite flag, in position order.
    pub fn get_commands(&self, group_id: Option<i64>, category_id: Option<i64>, favorites_only: bool) -> (r: Result<Vec<Command>>)
        requires
            self.wf(),
        ensures
            r matches Ok(v) && exists|idx: Seq<usize>| {
                &&& ordered_selection(pos_keys(slots(self.commands@)), flags(self.commands@, command_filter(group_id, category_id, favorites_only)), idx)
                &&& v@.len() == idx.len()
                &&& forall|k: int| 0 <= k < idx.len() ==> (#[trigger] v@[k]).same_as(&self.commands@[idx[k] as int])
            },
    {
        let ghost p = command_filter(group_id, category_id, favorites_only);
        let mut sel: Vec<bool> = Vec::new();
        let mut i: usize = 0;
        while i < self.commands.len()
            invariant
                i <= self.commands@.len(),
                sel@.len() == i,
                p == command_filter(group_id, category_id, favorites_only),
                forall|k: int| 0 <= k < i ==> sel@[k] == p(self.commands@[k]),
            decreases self.commands@.len() - i,
        {
            let c = &self.commands[i];
            let cat_ok = match category_id {
                None => true,
                Some(_) => opt_eq(c.category_id, category_id),
            };
            sel.push(opt_eq(c.group_id, group_id) && cat_ok && (!favorites_only || c.is_favorite));
            i = i + 1;
        }
        assert(sel@ =~= flags(self.commands@, p));
        let keys = pos_keys_of(&self.commands);
        proof {
            lemma_pos_keys_distinct(slots(self.commands@), self.next_id as int, sel@);
        }
        let idx = order_selected(&keys, &sel);
        let mut out: Vec<Command> = Vec::new();
        let mut k: usize = 0;
        while k < idx.len()
            invariant
                k <= idx@.len(),
                out@.len() == k,
                forall|m: int| 0 <= m < idx@.len() ==> (#[trigger] idx@[m]) < self.commands@.len(),
                forall|m: int| 0 <= m < k ==> (#[trigger] out@[m]).same_as(&self.commands@[idx@[m] as int]),
            decreases idx@.len() - k,
        {
            out.push(self.commands[idx[k]].duplicate());
            k = k + 1;
        }
        Ok(out)
    }
}

impl Database {
    /// The child groups of a group (or the root groups), narrowed by category and favourite flag, in position order.
    pub fn get_groups(&self, parent_id: Option<i64>, category_id: Option<i64>, favorites_only: bool) -> (r: Result<Vec<Group>>)
        requires
            self.wf(),
        ensures
            r matches Ok(v) && exists|idx: Seq<usize>| {
                &&& ordered_selection(pos_keys(slots(self.groups@)), flags(self.groups@, group_filter(parent_id, category_id, favorites_only)), idx)
                &&& v@.len() == idx.len()
                &&& forall|k: int| 0 <= k < idx.len() ==> (#[trigger] v@[k]).same_as(&self.groups@[idx[k] as int])
            },
    {
        let ghost p = group_filter(parent_id, category_id, favorites_only);
        let mut sel: Vec<bool> = Vec::new();
        let mut i: usize = 0;
        while i < self.groups.len()
            invariant
                i <= self.groups@.len(),
                sel@.len() == i,
                p == group_filter(parent_id, category_id, favorites_only),
                forall|k: int| 0 <= k < i ==> sel@[k] == p(self.groups@[k]),
            decreases self.groups@.len() - i,
        {
            let x = &self.groups[i];
            sel.push(opt_eq(x.parent_group_id, parent_id) && (match category_id {
                None => true,
                Some(_) => opt_eq(x.category_id, category_id),
            }) && (!favorites_only || x.is_favorite));
            i = i + 1;
        }
        assert(sel@ =~= flags(self.groups@, p));
        let keys = pos_keys_of(&self.groups);
        proof {
            lemma_pos_keys_distinct(slots(self.groups@), self.next_id as int, sel@);
        }
        let idx = order_selected(&keys, &sel);
        let mut out: Vec<Group> = Vec::new();
        let mut k: usize = 0;
        while k < idx.len()
            invariant
                k <= idx@.len(),
                out@.len() == k,
                forall|m: int| 0 <= m < idx@.len() ==> (#[trigger] idx@[m]) < self.groups@.len(),
                forall|m: int| 0 <= m < k ==> (#[trigger] out@[m]).same_as(&self.groups@[idx@[m] as int]),
            decreases idx@.len() - k,
        {
            out.push(self.groups[idx[k]].duplicate());
            k = k + 1;
        }
        Ok(out)
    }

    /// The workflows, narrowed by category and favourite flag, in position order.
    pub fn get_workflows(&self, category_id: Option<i64>, favorites_only: bool) -> (r: Result<Vec<Workflow>>)
        requires
            self.wf(),
        ensures
            r matches Ok(v) && exists|idx: Seq<usize>| {
                &&& ordered_selection(pos_keys(slots(self.workflows@)), flags(self.workflows@, workflow_filter(category_id, favorites_only)), idx)
                &&& v@.len() == idx.len()
                &&& forall|k: int| 0 <= k < idx.len() ==> #[trigger] v@[k] == self.workflows@[idx[k] as int]
            },
    {
        let ghost p = workflow_filter(category_id, favorites_only);
        let mut sel: Vec<bool> = Vec::new();
        let mut i: usize = 0;
        while i < self.workflows.len()
            invariant
                i <= self.workflows@.len(),
                sel@.len() == i,
                p == workflow_filter(category_id, favorites_only),
                forall|k: int| 0 <= k < i ==> sel@[k] == p(self.workflows@[k]),
            decreases self.workflows@.len() - i,
        {
            let x = &self.workflows[i];
            sel.push((match category_id {
                None => true,
                Some(_) => opt_eq(x.category_id, category_id),
            }) && (!favorites_only || x.is_favorite));
            i = i + 1;
        }
        assert(sel@ =~= flags(self.workflows@, p));
        let keys = pos_keys_of(&self.workflows);
        proof {
            lemma_pos_keys_distinct(slots(self.workflows@), self.next_id as int, sel@);
        }
        let idx = order_selected(&keys, &sel);
        let mut out: Vec<Workflow> = Vec::new();
        let mut k: usize = 0;
        while k < idx.len()
            invariant
                k <= idx@.len(),
                out@.len() == k,
                forall|m: int| 0 <= m < idx@.len() ==> (#[trigger] idx@[m]) < self.workflows@.len(),
                forall|m: int| 0 <= m < k ==> #[trigger] out@[m] == self.workflows@[idx@[m] as int],
            decreases idx@.len() - k,
        {
            out.push(self.workflows[idx[k]].duplicate());
            k = k + 1;
        }
        Ok(out)
    }

    /// The steps, narrowed by workflow, command and enabled flag, in position order.
    pub fn get_workflow_steps(&self, workflow_id: Option<i64>, command_id: Option<i64>, enabled_only: bool) -> (r: Result<Vec<WorkflowStep>>)
        requires
            self.wf(),
        ensures
            r matches Ok(v) && exists|idx: Seq<usize>| {
                &&& ordered_selection(pos_keys(slots(self.steps@)), flags(self.steps@, step_filter(workflow_id, command_id, enabled_only)), idx)
                &&& v@.len() == idx.len()
                &&& forall|k: int| 0 <= k < idx.len() ==> #[trigger] v@[k] == self.steps@[idx[k] as int]
            },
    {
        let ghost p = step_filter(workflow_id, command_id, enabled_only);
        let mut sel: Vec<bool> = Vec::new();
        let mut i: usize = 0;
        while i < self.steps.len()
            invariant
                i <= self.steps@.len(),
                sel@.len() == i,
                p == step_filter(workflow_id, command_id, enabled_only),
                forall|k: int| 0 <= k < i ==> sel@[k] == p(self.steps@[k]),
            decreases self.steps@.len() - i,
        {
            let x = &self.steps[i];
            sel.push((match workflow_id {
                None => true,
                Some(w) => x.workflow_id == w,
            }) && (match command_id {
                None => true,
                Some(c) => x.command_id == c,
            }) && (!enabled_only || x.enabled));
            i = i + 1;
        }
        assert(sel@ =~= flags(self.steps@, p));
        let keys = pos_keys_of(&self.steps);
        proof {
            lemma_pos_keys_distinct(slots(self.steps@), self.next_id as int, sel@);
        }
        let idx = order_selected(&keys, &sel);
        let mut out: Vec<WorkflowStep> = Vec::new();
        let mut k: usize = 0;
        while k < idx.len()
            invariant
                k <= idx@.len(),
                out@.len() == k,
                forall|m: int| 0 <= m < idx@.len() ==> (#[trigger] idx@[m]) < self.steps@.len(),
                forall|m: int| 0 <= m < k ==> #[trigger] out@[m] == self.steps@[idx@[m] as int],
            decreases idx@.len() - k,
        {
            out.push(self.steps[idx[k]].duplicate());
            k = k + 1;
        }
        Ok(out)
    }

}

/// A command matches a search term when its name, its command text or its
/// description holds the term, ignoring ASCII case.
pub open spec fn search_match(term: Seq<char>) -> spec_fn(Command) -> bool {
    |c: Command| matches_folded(c.name@, term) || matches_folded(c.command@, term) || (c.description is Some
        && matches_folded(c.description.unwrap()@, term))
}

/// Favourites first, then the most recently updated, then by id.
pub open spec fn search_key(c: Command) -> Key {
    (if c.is_favorite { 0 } else { 1 }, (u64::MAX - c.updated_at) as u64, c.id as u64)
}

pub open spec fn search_keys(cs: Seq<Command>) -> Seq<Key> {
    Seq::new(cs.len(), |i: int| search_key(cs[i]))
}

pub open spec fn recency_keys(hs: Seq<ExecutionHistory>) -> Seq<Key> {
    Seq::new(hs.len(), |i: int| recency_key(hs[i]))
}

/// The given limit, or the default one.
pub open spec fn effective_limit(limit: Option<i64>) -> i64 {
    match limit {
        Some(l) => l,
        None => EXECUTION_HISTORY_LIMIT,
    }
}

/// Records of the owner that are among the `limit` newest.
pub open spec fn history_filter(hs: Seq<ExecutionHistory>, by_command: bool, owner: i64, limit: i64) -> spec_fn(ExecutionHistory) -> bool {
    |h: ExecutionHistory| owned(h, by_command, owner) && among_newest(hs, h, by_command, owner, limit)
}

/// Running records, narrowed by command or by workflow.
pub open spec fn running_filter(command_id: Option<i64>, workflow_id: Option<i64>) -> spec_fn(ExecutionHistory) -> bool {
    |h: ExecutionHistory| h.status == Status::Running && (command_id is None || h.command_id == command_id) && (
    workflow_id is None || h.workflow_id == workflow_id)
}

/// Id order, which is the order of creation.
pub open spec fn id_key(h: ExecutionHistory) -> Key {
    (0, 0, h.id as u64)
}

pub open spec fn id_keys(hs: Seq<ExecutionHistory>) -> Seq<Key> {
    Seq::new(hs.len(), |i: int| id_key(hs[i]))
}

/// How many of the first `n` rows satisfy `p`.
pub open spec fn count_where<T>(s: Seq<T>, p: spec_fn(T) -> bool, n: int) -> nat
    decreases n,
{
    if n <= 0 {
        0
    } else if p(s[n - 1]) {
        count_where(s, p, n - 1) + 1
    } else {
        count_where(s, p, n - 1)
    }
}

/// The names from `id` up its parent chain, at most `fuel` of them.
pub open spec fn names_up(groups: Seq<Group>, id: i64, fuel: nat) -> Seq<Seq<char>>
    decreases fuel,
{
    let gs = slots(groups);
    if fuel == 0 || !has_id(gs, id) {
        Seq::empty()
    } else {
        let g = groups[index_of(gs, id)];
        seq![g.name@] + match g.parent_group_id {
            Some(p) => names_up(groups, p, (fuel - 1) as nat),
            None => Seq::empty(),
        }
    }
}

/// The group `root` and its descendants.
pub open spec fn subtree_filter(groups: Seq<Group>, root: i64) -> spec_fn(Group) -> bool {
    |g: Group| descends(slots(groups), g.id, root)
}

/// The steps of a workflow whose command exists, narrowed by enabled flag.
pub open spec fn populated_filter(db: Database, workflow_id: i64, enabled_only: bool) -> spec_fn(WorkflowStep) -> bool {
    |s: WorkflowStep| s.workflow_id == workflow_id && (!enabled_only || s.enabled) && has_id(slots(db.commands@), s.command_id)
}

pub proof fn lemma_history_keys_distinct(hs: Seq<ExecutionHistory>, next: int, sel: Seq<bool>)
    requires
        table_ok(hist_slots(hs), next),
        sel.len() == hs.len(),
    ensures
        distinct_selected(recency_keys(hs), sel),
        distinct_selected(id_keys(hs), sel),
{
    assert forall|i: int, j: int| 0 <= i < hs.len() && 0 <= j < hs.len() && i != j && sel[i] && sel[j] implies
        recency_keys(hs)[i] != recency_keys(hs)[j] && id_keys(hs)[i] != id_keys(hs)[j] by {
        assert(hist_slots(hs)[i].id != hist_slots(hs)[j].id);
        assert(0 < hist_slots(hs)[i].id && 0 < hist_slots(hs)[j].id);
    }
}

impl Database {
    /// Commands whose name, command text or description holds the term,
    /// ignoring ASCII case: favourites first, then the most recently updated.
    pub fn search_commands(&self, search_term: &str) -> (r: Result<Vec<Command>>)
        requires
            self.wf(),
        ensures
            r matches Ok(v) && exists|idx: Seq<usize>| {
                &&& ordered_selection(search_keys(self.commands@), flags(self.commands@, search_match(search_term@)), idx)
                &&& v@.len() == idx.len()
                &&& forall|k: int| 0 <= k < idx.len() ==> (#[trigger] v@[k]).same_as(&self.commands@[idx[k] as int])
            },
    {
        let ghost p = search_match(search_term@);
        let mut sel: Vec<bool> = Vec::new();
        let mut keys: Vec<Key> = Vec::new();
        let mut i: usize = 0;
        while i < self.commands.len()
            invariant
                i <= self.commands@.len(),
                sel@.len() == i,
                keys@.len() == i,
                p == search_match(search_term@),
                table_ok(slots(self.commands@), self.next_id as int),
                forall|k: int| 0 <= k < i ==> sel@[k] == p(self.commands@[k]),
                forall|k: int| 0 <= k < i ==> keys@[k] == search_key(self.commands@[k]),
            decreases self.commands@.len() - i,
        {
            let c = &self.commands[i];
            let in_description = match &c.description {
                Some(d) => contains_folded(d.as_str(), search_term),
                None => false,
            };
            sel.push(contains_folded(c.name.as_str(), search_term) || contains_folded(c.command.as_str(), search_term) || in_description);
            proof {
                assert(slots(self.commands@)[i as int].id == c.id);
            }
            keys.push((if c.is_favorite { 0 } else { 1 }, u64::MAX - c.updated_at, c.id as u64));
            i = i + 1;
        }
        assert(sel@ =~= flags(self.commands@, p));
        assert(keys@ =~= search_keys(self.commands@));
        proof {
            let ss = slots(self.commands@);
            assert forall|a: int, b: int| 0 <= a < keys@.len() && 0 <= b < keys@.len() && a != b && sel@[a] && sel@[b] implies
                keys@[a] != keys@[b] by {
                assert(ss[a].id != ss[b].id);
                assert(0 < ss[a].id && 0 < ss[b].id);
            }
        }
        let idx = order_selected(&keys, &sel);
        let mut out: Vec<Command> = Vec::new();
        let mut k: usize = 0;
        while k < idx.len()
            invariant
                k <= idx@.len(),
                out@.len() == k,
                forall|m: int| 0 <= m < idx@.len() ==> (#[trigger] idx@[m]) < self.commands@.len(),
                forall|m: int| 0 <= m < k ==> (#[trigger] out@[m]).same_as(&self.commands@[idx@[m] as int]),
            decreases idx@.len() - k,
        {
            out.push(self.commands[idx[k]].duplicate());
            k = k + 1;
        }
        Ok(out)
    }

    fn history_listing(&self, by_command: bool, owner: i64, limit: i64) -> (v: Vec<ExecutionHistory>)
        requires
            self.wf(),
        ensures
            exists|idx: Seq<usize>| {
                &&& ordered_selection(recency_keys(self.history@), flags(self.history@, history_filter(self.history@, by_command, owner, limit)), idx)
                &&& v@.len() == idx.len()
                &&& forall|k: int| 0 <= k < idx.len() ==> #[trigger] v@[k] == self.history@[idx[k] as int]
            },
    {
        let ghost p = history_filter(self.history@, by_command, owner, limit);
        let mut sel: Vec<bool> = Vec::new();
        let mut keys: Vec<Key> = Vec::new();
        let mut i: usize = 0;
        while i < self.history.len()
            invariant
                self.wf(),
                i <= self.history@.len(),
                sel@.len() == i,
                keys@.len() == i,
                p == history_filter(self.history@, by_command, owner, limit),
                forall|k: int| 0 <= k < i ==> sel@[k] == p(self.history@[k]),
                forall|k: int| 0 <= k < i ==> keys@[k] == recency_key(self.history@[k]),
            decreases self.history@.len() - i,
        {
            let h = &self.history[i];
            let mine = match by_command {
                true => opt_eq(h.command_id, Some(owner)),
                false => opt_eq(h.workflow_id, Some(owner)),
            };
            sel.push(mine && self.within_newest_pub(i, by_command, owner, limit));
            proof {
                assert(hist_slots(self.history@)[i as int].id == h.id);
            }
            keys.push((u64::MAX - h.started_at, u64::MAX - h.id as u64, 0));
            i = i + 1;
        }
        assert(sel@ =~= flags(self.history@, p));
        assert(keys@ =~= recency_keys(self.history@));
        proof {
            lemma_history_keys_distinct(self.history@, self.next_id as int, sel@);
        }
        let idx = order_selected(&keys, &sel);
        let mut out: Vec<ExecutionHistory> = Vec::new();
        let mut k: usize = 0;
        while k < idx.len()
            invariant
                k <= idx@.len(),
                out@.len() == k,
                forall|m: int| 0 <= m < idx@.len() ==> (#[trigger] idx@[m]) < self.history@.len(),
                forall|m: int| 0 <= m < k ==> #[trigger] out@[m] == self.history@[idx@[m] as int],
            decreases idx@.len() - k,
        {
            out.push(self.history[idx[k]].duplicate());
            k = k + 1;
        }
        out
    }

    /// The newest records of a command, newest first, at most `limit` of
    /// them (a default when none is given; all of them when negative).
    pub fn get_command_execution_history(&self, command_id: i64, limit: Option<i64>) -> (r: Result<Vec<ExecutionHistory>>)
        requires
            self.wf(),
        ensures
            r matches Ok(v) && exists|idx: Seq<usize>| {
                &&& ordered_selection(recency_keys(self.history@), flags(self.history@, history_filter(self.history@, true, command_id, effective_limit(limit))), idx)
                &&& v@.len() == idx.len()
                &&& forall|k: int| 0 <= k < idx.len() ==> #[trigger] v@[k] == self.history@[idx[k] as int]
            },
    {
        let lim = match limit {
            Some(l) => l,
            None => EXECUTION_HISTORY_LIMIT,
        };
        let v = self.history_listing(true, command_id, lim);
        assert(lim == effective_limit(limit));
        proof {
            let idx = choose|idx: Seq<usize>| {
                &&& ordered_selection(recency_keys(self.history@), flags(self.history@, history_filter(self.history@, true, command_id, lim)), idx)
                &&& v@.len() == idx.len()
                &&& forall|k: int| 0 <= k < idx.len() ==> #[trigger] v@[k] == self.history@[idx[k] as int]
            };
            assert(ordered_selection(recency_keys(self.history@), flags(self.history@, history_filter(self.history@, true, command_id, effective_limit(limit))), idx));
        }
        Ok(v)
    }

    /// The newest records of a workflow, newest first, at most `limit` of
    /// them (a default when none is given; all of them when negative).
    pub fn get_workflow_execution_history(&self, workflow_id: i64, limit: Option<i64>) -> (r: Result<Vec<ExecutionHistory>>)
        requires
            self.wf(),
        ensures
            r matches Ok(v) && exists|idx: Seq<usize>| {
                &&& ordered_selection(recency_keys(self.history@), flags(self.history@, history_filter(self.history@, false, workflow_id, effective_limit(limit))), idx)
                &&& v@.len() == idx.len()
                &&& forall|k: int| 0 <= k < idx.len() ==> #[trigger] v@[k] == self.history@[idx[k] as int]
            },
    {
        let lim = match limit {
            Some(l) => l,
            None => EXECUTION_HISTORY_LIMIT,
        };
        let v = self.history_listing(false, workflow_id, lim);
        assert(lim == effective_limit(limit));
        proof {
            let idx = choose|idx: Seq<usize>| {
                &&& ordered_selection(recency_keys(self.history@), flags(self.history@, history_filter(self.history@, false, workflow_id, lim)), idx)
                &&& v@.len() == idx.len()
                &&& forall|k: int| 0 <= k < idx.len() ==> #[trigger] v@[k] == self.history@[idx[k] as int]
            };
            assert(ordered_selection(recency_keys(self.history@), flags(self.history@, history_filter(self.history@, false, workflow_id, effective_limit(limit))), idx));
        }
        Ok(v)
    }

    /// The running records, of one command or of one workflow (not both),
    /// in order of creation.
    pub fn get_running_commands(&self, command_id: Option<i64>, workflow_id: Option<i64>) -> (r: Result<Vec<ExecutionHistory>>)
        requires
            self.wf(),
        ensures
            command_id is Some && workflow_id is Some ==> invalid(r, "workflow_id"),
            r is Ok <==> !(command_id is Some && workflow_id is Some),
            r matches Ok(v) ==> exists|idx: Seq<usize>| {
                &&& ordered_selection(id_keys(self.history@), flags(self.history@, running_filter(command_id, workflow_id)), idx)
                &&& v@.len() == idx.len()
                &&& forall|k: int| 0 <= k < idx.len() ==> #[trigger] v@[k] == self.history@[idx[k] as int]
            },
    {
        if command_id.is_some() && workflow_id.is_some() {
            return Err(
                DatabaseError::InvalidData {
                    field: "workflow_id",
                    reason: String::from_str("Invalid method call, only one query params allowed"),
                },
            );
        }
        let ghost p = running_filter(command_id, workflow_id);
        let mut sel: Vec<bool> = Vec::new();
        let mut keys: Vec<Key> = Vec::new();
        let mut i: usize = 0;
        while i < self.history.len()
            invariant
                self.wf(),
                i <= self.history@.len(),
                sel@.len() == i,
                keys@.len() == i,
                p == running_filter(command_id, workflow_id),
                forall|k: int| 0 <= k < i ==> sel@[k] == p(self.history@[k]),
                forall|k: int| 0 <= k < i ==> keys@[k] == id_key(self.history@[k]),
            decreases self.history@.len() - i,
        {
            let h = &self.history[i];
            let running = match h.status {
                Status::Running => true,
                _ => false,
            };
            let c_ok = match command_id {
                None => true,
                Some(_) => opt_eq(h.command_id, command_id),
            };
            let w_ok = match workflow_id {
                None => true,
                Some(_) => opt_eq(h.workflow_id, workflow_id),
            };
            sel.push(running && c_ok && w_ok);
            proof {
                assert(hist_slots(self.history@)[i as int].id == h.id);
            }
            keys.push((0, 0, h.id as u64));
            i = i + 1;
        }
        assert(sel@ =~= flags(self.history@, p));
        assert(keys@ =~= id_keys(self.history@));
        proof {
            lemma_history_keys_distinct(self.history@, self.next_id as int, sel@);
        }
        let idx = order_selected(&keys, &sel);
        let mut out: Vec<ExecutionHistory> = Vec::new();
        let mut k: usize = 0;
        while k < idx.len()
            invariant
                k <= idx@.len(),
                out@.len() == k,
                forall|m: int| 0 <= m < idx@.len() ==> (#[trigger] idx@[m]) < self.history@.len(),
                forall|m: int| 0 <= m < k ==> #[trigger] out@[m] == self.history@[idx@[m] as int],
            decreases idx@.len() - k,
        {
            out.push(self.history[idx[k]].duplicate());
            k = k + 1;
        }
        Ok(out)
    }
}
impl Database {
    /// How many commands the group holds directly.
    pub fn get_group_command_count(&self, id: i64) -> (r: Result<i64>)
        requires
            self.wf(),
        ensures
            r matches Ok(n) && n == count_where(self.commands@, |c: Command| c.group_id == Some(id), self.commands@.len() as int),
    {
        let ghost p = |c: Command| c.group_id == Some(id);
        let mut c: i64 = 0;
        let mut j: usize = 0;
        while j < self.commands.len()
            invariant
                j <= self.commands@.len(),
                self.commands@.len() < ID_LIMIT,
                p == |c: Command| c.group_id == Some(id),
                c == count_where(self.commands@, p, j as int),
                c <= j,
            decreases self.commands@.len() - j,
        {
            let x = &self.commands[j];
            if opt_eq(x.group_id, Some(id)) {
                c = c + 1;
            }
            j = j + 1;
        }
        assert(c == count_where(self.commands@, p, self.commands@.len() as int));
        Ok(c)
    }

    /// How many commands name the category.
    pub fn get_category_command_count(&self, id: i64) -> (r: Result<i64>)
        requires
            self.wf(),
        ensures
            r matches Ok(n) && n == count_where(self.commands@, |c: Command| c.category_id == Some(id), self.commands@.len() as int),
    {
        let ghost p = |c: Command| c.category_id == Some(id);
        let mut c: i64 = 0;
        let mut j: usize = 0;
        while j < self.commands.len()
            invariant
                j <= self.commands@.len(),
                self.commands@.len() < ID_LIMIT,
                p == |c: Command| c.category_id == Some(id),
                c == count_where(self.commands@, p, j as int),
                c <= j,
            decreases self.commands@.len() - j,
        {
            let x = &self.commands[j];
            if opt_eq(x.category_id, Some(id)) {
                c = c + 1;
            }
            j = j + 1;
        }
        assert(c == count_where(self.commands@, p, self.commands@.len() as int));
        Ok(c)
    }

    /// How many workflows have exactly this category (or none, for `None`).
    pub fn get_workflow_count(&self, category_id: Option<i64>) -> (r: Result<i64>)
        requires
            self.wf(),
        ensures
            r matches Ok(n) && n == count_where(self.workflows@, |w: Workflow| w.category_id == category_id, self.workflows@.len() as int),
    {
        let ghost p = |w: Workflow| w.category_id == category_id;
        let mut c: i64 = 0;
        let mut j: usize = 0;
        while j < self.workflows.len()
            invariant
                j <= self.workflows@.len(),
                self.workflows@.len() < ID_LIMIT,
                p == |w: Workflow| w.category_id == category_id,
                c == count_where(self.workflows@, p, j as int),
                c <= j,
            decreases self.workflows@.len() - j,
        {
            let x = &self.workflows[j];
            if opt_eq(x.category_id, category_id) {
                c = c + 1;
            }
            j = j + 1;
        }
        assert(c == count_where(self.workflows@, p, self.workflows@.len() as int));
        Ok(c)
    }

    /// How many steps the workflow has.
    pub fn get_workflow_step_count(&self, workflow_id: i64) -> (r: Result<i64>)
        requires
            self.wf(),
        ensures
            r matches Ok(n) && n == count_where(self.steps@, |s: WorkflowStep| s.workflow_id == workflow_id, self.steps@.len() as int),
    {
        let ghost p = |s: WorkflowStep| s.workflow_id == workflow_id;
        let mut c: i64 = 0;
        let mut j: usize = 0;
        while j < self.steps.len()
            invariant
                j <= self.steps@.len(),
                self.steps@.len() < ID_LIMIT,
                p == |s: WorkflowStep| s.workflow_id == workflow_id,
                c == count_where(self.steps@, p, j as int),
                c <= j,
            decreases self.steps@.len() - j,
        {
            let x = &self.steps[j];
            if x.workflow_id == workflow_id {
                c = c + 1;
            }
            j = j + 1;
        }
        assert(c == count_where(self.steps@, p, self.steps@.len() as int));
        Ok(c)
    }

    /// The group and all its descendants, in position order; empty when
    /// the group does not exist.
    pub fn get_group_tree(&self, root_id: i64) -> (r: Result<Vec<Group>>)
        requires
            self.wf(),
        ensures
            r matches Ok(v) && (!has_id(slots(self.groups@), root_id) ==> v@.len() == 0) && (has_id(slots(self.groups@), root_id) ==> exists|idx: Seq<usize>| {
                &&& #[trigger] ordered_selection(pos_keys(slots(self.groups@)), flags(self.groups@, subtree_filter(self.groups@, root_id)), idx)
                &&& v@.len() == idx.len()
                &&& forall|k: int| 0 <= k < idx.len() ==> (#[trigger] v@[k]).same_as(&self.groups@[idx[k] as int])
            }),
    {
        if find_row(&self.groups, root_id).is_none() {
            return Ok(Vec::new());
        }
        let sel = mark_descendants(&self.groups, root_id);
        assert(sel@ =~= flags(self.groups@, subtree_filter(self.groups@, root_id)));
        let keys = pos_keys_of(&self.groups);
        proof {
            lemma_pos_keys_distinct(slots(self.groups@), self.next_id as int, sel@);
        }
        let idx = order_selected(&keys, &sel);
        let mut out: Vec<Group> = Vec::new();
        let mut k: usize = 0;
        while k < idx.len()
            invariant
                k <= idx@.len(),
                out@.len() == k,
                forall|m: int| 0 <= m < idx@.len() ==> (#[trigger] idx@[m]) < self.groups@.len(),
                forall|m: int| 0 <= m < k ==> (#[trigger] out@[m]).same_as(&self.groups@[idx@[m] as int]),
            decreases idx@.len() - k,
        {
            out.push(self.groups[idx[k]].duplicate());
            k = k + 1;
        }
        Ok(out)
    }

    /// The names of the group's ancestors and of the group itself, root
    /// first; empty when the group does not exist. The walk stops after as
    /// many links as there are groups.
    pub fn get_group_path(&self, group_id: i64) -> (r: Result<Vec<String>>)
        requires
            self.wf(),
        ensures
            r matches Ok(v) && {
                let up = names_up(self.groups@, group_id, self.groups@.len() as nat);
                &&& v@.len() == up.len()
                &&& forall|k: int| 0 <= k < up.len() ==> (#[trigger] v@[k])@ == up[up.len() - 1 - k]
            },
    {
        let ghost full = names_up(self.groups@, group_id, self.groups@.len() as nat);
        let mut up: Vec<String> = Vec::new();
        let mut current: Option<i64> = Some(group_id);
        let mut fuel: usize = self.groups.len();
        while current.is_some() && fuel > 0
            invariant
                self.wf(),
                fuel <= self.groups@.len(),
                current matches Some(c) ==> full == up@.map_values(|x: String| x@) + names_up(self.groups@, c, fuel as nat),
                current is None ==> full == up@.map_values(|x: String| x@),
            decreases fuel,
        {
            let id = current.unwrap();
            match find_row(&self.groups, id) {
                None => {
                    assert(names_up(self.groups@, id, fuel as nat) =~= Seq::<Seq<char>>::empty());
                    assert(up@.map_values(|x: String| x@) + Seq::<Seq<char>>::empty() =~= up@.map_values(|x: String| x@));
                    current = None;
                },
                Some(i) => {
                    let g = &self.groups[i];
                    let ghost before = up@;
                    up.push(g.name.clone());
                    assert(up@.map_values(|x: String| x@) =~= before.map_values(|x: String| x@).push(g.name@));
                    match g.parent_group_id {
                        Some(p) => {
                            assert(names_up(self.groups@, id, fuel as nat) =~= seq![g.name@] + names_up(self.groups@, p, (fuel - 1) as nat));
                            assert(before.map_values(|x: String| x@) + (seq![g.name@] + names_up(self.groups@, p, (fuel - 1) as nat))
                                =~= up@.map_values(|x: String| x@) + names_up(self.groups@, p, (fuel - 1) as nat));
                            current = Some(p);
                        },
                        None => {
                            assert(names_up(self.groups@, id, fuel as nat) =~= seq![g.name@]);
                            assert(before.map_values(|x: String| x@) + seq![g.name@] =~= up@.map_values(|x: String| x@));
                            current = None;
                        },
                    }
                },
            }
            fuel = fuel - 1;
        }
        proof {
            if current is Some {
                assert(names_up(self.groups@, current.unwrap(), 0) =~= Seq::<Seq<char>>::empty());
                assert(full =~= up@.map_values(|x: String| x@));
            }
        }
        let mut out: Vec<String> = Vec::new();
        let mut k: usize = up.len();
        while k > 0
            invariant
                k <= up@.len(),
                full == up@.map_values(|x: String| x@),
                out@.len() == up@.len() - k,
                forall|m: int| 0 <= m < out@.len() ==> (#[trigger] out@[m])@ == full[full.len() - 1 - m],
            decreases k,
        {
            k = k - 1;
            out.push(up[k].clone());
        }
        Ok(out)
    }

    /// All categories, in name order.
    pub fn get_categories(&self) -> (r: Result<Vec<Category>>)
        requires
            self.wf(),
        ensures
            r matches Ok(v) && exists|idx: Seq<usize>| {
                &&& by_name(self.categories@, idx)
                &&& v@.len() == idx.len()
                &&& forall|k: int| 0 <= k < idx.len() ==> #[trigger] v@[k] == self.categories@[idx[k] as int]
            },
    {
        proof {
            let cs = crate::store::cat_slots(self.categories@);
            assert forall|i: int, j: int| 0 <= i < self.categories@.len() && 0 <= j < self.categories@.len() && i != j implies
                (#[trigger] self.categories@[i]).id != (#[trigger] self.categories@[j]).id by {
                assert(cs[i].id != cs[j].id);
            }
        }
        let idx = order_by_name(&self.categories);
        let mut out: Vec<Category> = Vec::new();
        let mut k: usize = 0;
        while k < idx.len()
            invariant
                k <= idx@.len(),
                out@.len() == k,
                forall|m: int| 0 <= m < idx@.len() ==> (#[trigger] idx@[m]) < self.categories@.len(),
                forall|m: int| 0 <= m < k ==> #[trigger] out@[m] == self.categories@[idx@[m] as int],
            decreases idx@.len() - k,
        {
            out.push(self.categories[idx[k]].duplicate());
            k = k + 1;
        }
        Ok(out)
    }

    /// The steps of a workflow (only the enabled ones, if asked), each with
    /// its command, in step position order; a step whose command is gone is left out.
    pub fn get_workflow_steps_command_populated(&self, workflow_id: i64, enabled_only: bool) -> (r: Result<Vec<(WorkflowStep, Command)>>)
        requires
            self.wf(),
        ensures
            r matches Ok(v) && exists|idx: Seq<usize>| {
                &&& ordered_selection(pos_keys(slots(self.steps@)), flags(self.steps@, populated_filter(*self, workflow_id, enabled_only)), idx)
                &&& v@.len() == idx.len()
                &&& forall|k: int| 0 <= k < idx.len() ==> (#[trigger] v@[k]).0 == self.steps@[idx[k] as int]
                    && v@[k].1.same_as(&self.commands@[index_of(slots(self.commands@), v@[k].0.command_id)])
            },
    {
        let ghost p = populated_filter(*self, workflow_id, enabled_only);
        let mut sel: Vec<bool> = Vec::new();
        let mut i: usize = 0;
        while i < self.steps.len()
            invariant
                self.wf(),
                i <= self.steps@.len(),
                sel@.len() == i,
                p == populated_filter(*self, workflow_id, enabled_only),
                forall|k: int| 0 <= k < i ==> sel@[k] == p(self.steps@[k]),
            decreases self.steps@.len() - i,
        {
            let x = &self.steps[i];
            sel.push(x.workflow_id == workflow_id && (!enabled_only || x.enabled) && find_row(&self.commands, x.command_id).is_some());
            i = i + 1;
        }
        assert(sel@ =~= flags(self.steps@, p));
        let keys = pos_keys_of(&self.steps);
        proof {
            lemma_pos_keys_distinct(slots(self.steps@), self.next_id as int, sel@);
        }
        let idx = order_selected(&keys, &sel);
        let mut out: Vec<(WorkflowStep, Command)> = Vec::new();
        let mut k: usize = 0;
        while k < idx.len()
            invariant
                self.wf(),
                k <= idx@.len(),
                out@.len() == k,
                ordered_selection(keys@, sel@, idx@),
                sel@ == flags(self.steps@, p),
                p == populated_filter(*self, workflow_id, enabled_only),
                keys@.len() == self.steps@.len(),
                forall|m: int| 0 <= m < k ==> (#[trigger] out@[m]).0 == self.steps@[idx@[m] as int]
                    && out@[m].1.same_as(&self.commands@[index_of(slots(self.commands@), out@[m].0.command_id)]),
            decreases idx@.len() - k,
        {
            let step = self.steps[idx[k]].duplicate();
            assert(sel@[idx@[k as int] as int]);
            let c = match find_row(&self.commands, step.command_id) {
                Some(c) => c,
                None => {
                    assert(false);
                    0
                },
            };
            let cmd = self.commands[c].duplicate();
            out.push((step, cmd));
            k = k + 1;
        }
        Ok(out)
    }
}
} // verus!
