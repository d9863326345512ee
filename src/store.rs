//! The store: one table per kind of record, with the rules that keep ids
//! unique, positions ordered, and references checked.
use vstd::prelude::*;
use crate::error::{DatabaseError, Result};
use crate::models::{
    copy_env, copy_strings, copy_text, Category, Command, EnvVars, ExecutionHistory, Group, Workflow, WorkflowStep,
};
use crate::position::{
    before_insert, find_row, move_done, move_item_between, moved, opt_index, fresh_position, has_id, index_of, invalid, lemma_index_of, next_position,
    not_found, opt_exists, repositioned, slots, slots_wf, unique_ids, Positioned, Slot, ID_LIMIT, POSITION_LIMIT,
};
use crate::hierarchy::{
    circular, descends, lemma_reach_within, mark_descendants, not_found_group, parent_check, reach, validate_no_circular_reference, Walk,
};
use crate::retain::{
    keep_where, lemma_keep_where, lemma_select_map, lemma_select_slots, lemma_select_wf, retain_flagged, select,
};
use crate::text::{blank, is_blank, is_valid_key, valid_key};

verus! {

pub const CATEGORIES_TABLE: &'static str = "categories";

pub const GROUPS_TABLE: &'static str = "groups";

pub const COMMANDS_TABLE: &'static str = "commands";

pub const WORKFLOWS_TABLE: &'static str = "workflows";

pub const WORKFLOW_STEPS_TABLE: &'static str = "workflow_steps";

pub const EXECUTION_HISTORY_TABLE: &'static str = "execution_history";

/// The store. Every read copies out of it; every write goes through one of
/// its methods, which keep `wf` true.
pub struct Database {
    pub categories: Vec<Category>,
    pub groups: Vec<Group>,
    pub commands: Vec<Command>,
    pub workflows: Vec<Workflow>,
    pub steps: Vec<WorkflowStep>,
    pub history: Vec<ExecutionHistory>,
    /// The id the next inserted row gets; ids are shared by all tables.
    pub next_id: i64,
    /// The current time in seconds since the Unix epoch, as last given to
    /// `set_clock`; every write stamps the rows it touches with it.
    pub clock: u64,
    /// Application settings as (key, value) pairs.
    pub settings: Vec<(String, String)>,
}

pub open spec fn cat_slots(s: Seq<Category>) -> Seq<Slot> {
    Seq::new(s.len(), |i: int| Slot { id: s[i].id, parent: None, position: 0 })
}

pub open spec fn hist_slots(s: Seq<ExecutionHistory>) -> Seq<Slot> {
    Seq::new(s.len(), |i: int| Slot { id: s[i].id, parent: None, position: 0 })
}

/// Every id lies in `1 .. next`, and the table has fewer rows than `next`.
pub open spec fn table_ok(ss: Seq<Slot>, next: int) -> bool {
    &&& slots_wf(ss)
    &&& forall|i: int| 0 <= i < ss.len() ==> 0 < #[trigger] ss[i].id < next
    &&& ss.len() < next
}

pub open spec fn fk_violation<T>(r: Result<T>, field: &'static str, id: i64) -> bool {
    r matches Err(DatabaseError::ForeignKeyViolation { field: f, referenced_id: x }) && f == field && x
        == id
}

pub open spec fn internal<T>(r: Result<T>) -> bool {
    r matches Err(DatabaseError::Internal(_))
}

/// Every key of the variables matches `[A-Za-z0-9_-]+`.
pub open spec fn group_refs(rows: Seq<Group>, gs: Seq<Slot>, cs: Seq<Slot>) -> bool {
    forall|i: int| 0 <= i < rows.len() ==> opt_exists(gs, (#[trigger] rows[i]).parent_group_id) && opt_exists(cs, rows[i].category_id)
}

pub open spec fn command_refs(rows: Seq<Command>, gs: Seq<Slot>, cs: Seq<Slot>) -> bool {
    forall|i: int| 0 <= i < rows.len() ==> opt_exists(gs, (#[trigger] rows[i]).group_id) && opt_exists(cs, rows[i].category_id)
}

pub open spec fn workflow_refs(rows: Seq<Workflow>, cs: Seq<Slot>) -> bool {
    forall|i: int| 0 <= i < rows.len() ==> opt_exists(cs, (#[trigger] rows[i]).category_id)
}

pub open spec fn step_refs(rows: Seq<WorkflowStep>, ws: Seq<Slot>, cms: Seq<Slot>) -> bool {
    forall|i: int| 0 <= i < rows.len() ==> has_id(ws, (#[trigger] rows[i]).workflow_id) && has_id(cms, rows[i].command_id)
}

pub open spec fn history_refs(rows: Seq<ExecutionHistory>, cms: Seq<Slot>, ws: Seq<Slot>, ss: Seq<Slot>) -> bool {
    forall|i: int| 0 <= i < rows.len() ==> opt_exists(cms, (#[trigger] rows[i]).command_id) && opt_exists(ws, rows[i].workflow_id)
        && opt_exists(ss, rows[i].workflow_step_id)
}

/// Each row of `new` keeps the references of the row of `old` at its
/// index, or has references that exist in the target tables.
pub open spec fn groups_carry(old: Seq<Group>, new: Seq<Group>, gs: Seq<Slot>, cs: Seq<Slot>) -> bool {
    forall|i: int| 0 <= i < new.len() ==> (i < old.len() && (#[trigger] new[i]).parent_group_id == old[i].parent_group_id
        && new[i].category_id == old[i].category_id) || (opt_exists(gs, new[i].parent_group_id) && opt_exists(cs, new[i].category_id))
}

pub open spec fn commands_carry(old: Seq<Command>, new: Seq<Command>, gs: Seq<Slot>, cs: Seq<Slot>) -> bool {
    forall|i: int| 0 <= i < new.len() ==> (i < old.len() && (#[trigger] new[i]).group_id == old[i].group_id
        && new[i].category_id == old[i].category_id) || (opt_exists(gs, new[i].group_id) && opt_exists(cs, new[i].category_id))
}

pub open spec fn workflows_carry(old: Seq<Workflow>, new: Seq<Workflow>, cs: Seq<Slot>) -> bool {
    forall|i: int| 0 <= i < new.len() ==> (i < old.len() && (#[trigger] new[i]).category_id == old[i].category_id)
        || opt_exists(cs, new[i].category_id)
}

pub open spec fn steps_carry(old: Seq<WorkflowStep>, new: Seq<WorkflowStep>, ws: Seq<Slot>, cms: Seq<Slot>) -> bool {
    forall|i: int| 0 <= i < new.len() ==> (i < old.len() && (#[trigger] new[i]).workflow_id == old[i].workflow_id
        && new[i].command_id == old[i].command_id) || (has_id(ws, new[i].workflow_id) && has_id(cms, new[i].command_id))
}

pub open spec fn history_carry(old: Seq<ExecutionHistory>, new: Seq<ExecutionHistory>, cms: Seq<Slot>, ws: Seq<Slot>, ss: Seq<Slot>) -> bool {
    forall|i: int| 0 <= i < new.len() ==> (i < old.len() && (#[trigger] new[i]).command_id == old[i].command_id
        && new[i].workflow_id == old[i].workflow_id && new[i].workflow_step_id == old[i].workflow_step_id) || (
    opt_exists(cms, new[i].command_id) && opt_exists(ws, new[i].workflow_id) && opt_exists(ss, new[i].workflow_step_id))
}

/// References stay valid when no table loses an id and every row keeps its
/// references or has valid new ones.
pub proof fn lemma_refs_frame(old: Database, new: Database)
    requires
        old.refs_ok(),
        covers(cat_slots(old.categories@), cat_slots(new.categories@)),
        covers(slots(old.groups@), slots(new.groups@)),
        covers(slots(old.commands@), slots(new.commands@)),
        covers(slots(old.workflows@), slots(new.workflows@)),
        covers(slots(old.steps@), slots(new.steps@)),
        groups_carry(old.groups@, new.groups@, slots(new.groups@), cat_slots(new.categories@)),
        commands_carry(old.commands@, new.commands@, slots(new.groups@), cat_slots(new.categories@)),
        workflows_carry(old.workflows@, new.workflows@, cat_slots(new.categories@)),
        steps_carry(old.steps@, new.steps@, slots(new.workflows@), slots(new.commands@)),
        history_carry(old.history@, new.history@, slots(new.commands@), slots(new.workflows@), slots(new.steps@)),
    ensures
        new.refs_ok(),
{
    assert forall|i: int| 0 <= i < new.groups@.len() implies opt_exists(slots(new.groups@), (#[trigger] new.groups@[i]).parent_group_id)
        && opt_exists(cat_slots(new.categories@), new.groups@[i].category_id) by {
        if i < old.groups@.len() {
            assert(old.groups@[i] == old.groups@[i]);
        }
    }
    assert forall|i: int| 0 <= i < new.commands@.len() implies opt_exists(slots(new.groups@), (#[trigger] new.commands@[i]).group_id)
        && opt_exists(cat_slots(new.categories@), new.commands@[i].category_id) by {
        if i < old.commands@.len() {
            assert(old.commands@[i] == old.commands@[i]);
        }
    }
    assert forall|i: int| 0 <= i < new.workflows@.len() implies opt_exists(cat_slots(new.categories@), (#[trigger] new.workflows@[i]).category_id) by {
        if i < old.workflows@.len() {
            assert(old.workflows@[i] == old.workflows@[i]);
        }
    }
    assert forall|i: int| 0 <= i < new.steps@.len() implies has_id(slots(new.workflows@), (#[trigger] new.steps@[i]).workflow_id)
        && has_id(slots(new.commands@), new.steps@[i].command_id) by {
        if i < old.steps@.len() {
            assert(old.steps@[i] == old.steps@[i]);
        }
    }
    assert forall|i: int| 0 <= i < new.history@.len() implies opt_exists(slots(new.commands@), (#[trigger] new.history@[i]).command_id)
        && opt_exists(slots(new.workflows@), new.history@[i].workflow_id) && opt_exists(slots(new.steps@), new.history@[i].workflow_step_id) by {
        if i < old.history@.len() {
            assert(old.history@[i] == old.history@[i]);
        }
    }
}

/// Every row that `keep_where` keeps satisfies the predicate.
pub proof fn lemma_keep_sat<T>(s: Seq<T>, p: spec_fn(T) -> bool)
    ensures
        forall|i: int| 0 <= i < keep_where(s, p).len() ==> p(#[trigger] keep_where(s, p)[i]),
{
    lemma_keep_where(s, p);
    assert forall|i: int| 0 <= i < keep_where(s, p).len() implies p(#[trigger] keep_where(s, p)[i]) by {
        assert(keep_where(s, p).contains(keep_where(s, p)[i]));
    }
}

/// A property of every row holds of every row that `keep_where` keeps.
pub proof fn lemma_keep_all<T>(s: Seq<T>, p: spec_fn(T) -> bool, q: spec_fn(T) -> bool)
    requires
        forall|i: int| 0 <= i < s.len() ==> q(#[trigger] s[i]),
    ensures
        forall|i: int| 0 <= i < keep_where(s, p).len() ==> q(#[trigger] keep_where(s, p)[i]),
{
    lemma_keep_where(s, p);
    assert forall|i: int| 0 <= i < keep_where(s, p).len() implies q(#[trigger] keep_where(s, p)[i]) by {
        let x = keep_where(s, p)[i];
        assert(keep_where(s, p).contains(x));
        let j = choose|j: int| 0 <= j < s.len() && s[j] == x;
        assert(q(s[j]));
    }
}

/// A category other than the deleted one is still there.
pub proof fn lemma_kept_category(cats: Seq<Category>, id: i64, c: i64)
    requires
        has_id(cat_slots(cats), c),
        c != id,
    ensures
        has_id(cat_slots(keep_where(cats, |x: Category| x.id != id)), c),
{
    let p = |x: Category| x.id != id;
    let j = choose|j: int| 0 <= j < cat_slots(cats).len() && cat_slots(cats)[j].id == c;
    lemma_keep_where(cats, p);
    assert(keep_where(cats, p).contains(cats[j]));
    let m = choose|m: int| 0 <= m < keep_where(cats, p).len() && keep_where(cats, p)[m] == cats[j];
    assert(cat_slots(keep_where(cats, p))[m].id == c);
}

/// Every id of `a` is an id of `b`.
pub open spec fn covers(a: Seq<Slot>, b: Seq<Slot>) -> bool {
    forall|x: i64| has_id(a, x) ==> #[trigger] has_id(b, x)
}

/// Slots with the same ids, index by index, have the same ids.
pub proof fn lemma_same_ids(a: Seq<Slot>, b: Seq<Slot>)
    requires
        a.len() == b.len(),
        forall|i: int| 0 <= i < a.len() ==> (#[trigger] a[i]).id == b[i].id,
    ensures
        covers(a, b),
        covers(b, a),
{
    assert forall|x: i64| has_id(a, x) implies #[trigger] has_id(b, x) by {
        let i = choose|i: int| 0 <= i < a.len() && a[i].id == x;
        assert(b[i].id == x);
    }
    assert forall|x: i64| has_id(b, x) implies #[trigger] has_id(a, x) by {
        let i = choose|i: int| 0 <= i < b.len() && b[i].id == x;
        assert(a[i].id == x);
    }
}

pub proof fn lemma_push_covers(a: Seq<Slot>, s: Slot)
    ensures
        covers(a, a.push(s)),
        has_id(a.push(s), s.id),
{
    assert forall|x: i64| has_id(a, x) implies #[trigger] has_id(a.push(s), x) by {
        let i = choose|i: int| 0 <= i < a.len() && a[i].id == x;
        assert(a.push(s)[i].id == x);
    }
    assert(a.push(s)[a.len() as int].id == s.id);
}

/// Every key matches `[A-Za-z0-9_-]+`, and no key appears twice.
pub open spec fn env_ok(e: Option<EnvVars>) -> bool {
    match e {
        Some(v) => (forall|i: int| 0 <= i < v@.len() ==> valid_key((#[trigger] v@[i]).0@)) && distinct_keys(v@),
        None => true,
    }
}

pub open spec fn distinct_keys(v: Seq<(String, String)>) -> bool {
    forall|i: int, j: int| 0 <= i < v.len() && 0 <= j < v.len() && i != j ==> (#[trigger] v[i]).0@ != (#[trigger] v[j]).0@
}

impl Database {
    pub open spec fn wf(&self) -> bool {
        &&& self.tables_ok()
        &&& self.refs_ok()
    }

    /// Ids unique and in range, positions in range, tables bounded.
    pub open spec fn tables_ok(&self) -> bool {
        &&& 0 < self.next_id < ID_LIMIT
        &&& table_ok(cat_slots(self.categories@), self.next_id as int)
        &&& table_ok(slots(self.groups@), self.next_id as int)
        &&& table_ok(slots(self.commands@), self.next_id as int)
        &&& table_ok(slots(self.workflows@), self.next_id as int)
        &&& table_ok(slots(self.steps@), self.next_id as int)
        &&& table_ok(hist_slots(self.history@), self.next_id as int)
    }

    /// Every reference names a row that exists: group to parent group and
    /// category, command to group and category, workflow to category, step
    /// to workflow and command, history record to command, workflow and step.
    pub open spec fn refs_ok(&self) -> bool {
        &&& group_refs(self.groups@, slots(self.groups@), cat_slots(self.categories@))
        &&& command_refs(self.commands@, slots(self.groups@), cat_slots(self.categories@))
        &&& workflow_refs(self.workflows@, cat_slots(self.categories@))
        &&& step_refs(self.steps@, slots(self.workflows@), slots(self.commands@))
        &&& history_refs(self.history@, slots(self.commands@), slots(self.workflows@), slots(self.steps@))
    }

    pub open spec fn has_category(&self, id: Option<i64>) -> bool {
        opt_exists(cat_slots(self.categories@), id)
    }

    pub open spec fn has_group(&self, id: Option<i64>) -> bool {
        opt_exists(slots(self.groups@), id)
    }

    /// There is room for one more id.
    pub open spec fn has_room(&self) -> bool {
        self.next_id < ID_LIMIT - 1
    }

    /// An empty store.
    pub fn new() -> (r: Database)
        ensures
            r.wf(),
            r.categories@.len() == 0,
            r.groups@.len() == 0,
            r.commands@.len() == 0,
            r.workflows@.len() == 0,
            r.steps@.len() == 0,
            r.history@.len() == 0,
            r.next_id == 1,
            r.clock == 0,
            crate::builders::env_pairs(r.settings@) == crate::settings::default_pairs(),
    {
        Database {
            categories: Vec::new(),
            groups: Vec::new(),
            commands: Vec::new(),
            workflows: Vec::new(),
            steps: Vec::new(),
            history: Vec::new(),
            next_id: 1,
            clock: 0,
            settings: crate::settings::default_settings(),
        }
    }

    fn stamp(&self) -> (t: u64)
        ensures
            t == self.clock,
    {
        self.clock
    }

    /// Sets the current time (seconds since the Unix epoch) that the
    /// following writes stamp.
    pub fn set_clock(&mut self, now: u64)
        ensures
            *final(self) == (Database { clock: now, ..*old(self) }),
    {
        self.clock = now;
    }

    fn category_row(&self, id: i64) -> (r: Option<usize>)
        requires
            unique_ids(cat_slots(self.categories@)),
        ensures
            r is None <==> !has_id(cat_slots(self.categories@), id),
            r matches Some(i) ==> i < self.categories@.len() && self.categories@[i as int].id == id
                && index_of(cat_slots(self.categories@), id) == i,
    {
        let ghost ss = cat_slots(self.categories@);
        let mut i: usize = 0;
        while i < self.categories.len()
            invariant
                i <= self.categories@.len(),
                ss == cat_slots(self.categories@),
                unique_ids(ss),
                forall|k: int| 0 <= k < i ==> self.categories@[k].id != id,
            decreases self.categories@.len() - i,
        {
            if self.categories[i].id == id {
                proof {
                    lemma_index_of(ss, i as int);
                }
                return Some(i);
            }
            i = i + 1;
        }
        proof {
            if has_id(ss, id) {
                let k = choose|k: int| 0 <= k < ss.len() && ss[k].id == id;
                assert(self.categories@[k].id == id);
            }
        }
        None
    }

    fn category_exists(&self, id: Option<i64>) -> (r: bool)
        requires
            unique_ids(cat_slots(self.categories@)),
        ensures
            r == self.has_category(id),
    {
        match id {
            None => true,
            Some(x) => self.category_row(x).is_some(),
        }
    }

    fn group_exists(&self, id: Option<i64>) -> (r: bool)
        requires
            unique_ids(slots(self.groups@)),
        ensures
            r == self.has_group(id),
    {
        match id {
            None => true,
            Some(x) => find_row(&self.groups, x).is_some(),
        }
    }
}

/// Checks that a text field is not blank.
pub fn validate_non_empty(field: &'static str, value: &str) -> (r: Result<()>)
    ensures
        r is Ok <==> !blank(value@),
        r is Err ==> invalid(r, field),
{
    if is_blank(value) {
        Err(
            DatabaseError::InvalidData {
                field,
                reason: String::from_str(field).concat(" cannot be empty"),
            },
        )
    } else {
        Ok(())
    }
}

/// Checks that every environment-variable key matches `[A-Za-z0-9_-]+`.
pub fn validate_env_var_keys(env_vars: &Option<EnvVars>) -> (r: Result<()>)
    ensures
        r is Ok <==> env_ok(*env_vars),
        r is Err ==> invalid(r, "env_vars"),
{
    match env_vars {
        None => Ok(()),
        Some(vars) => {
            let mut i: usize = 0;
            while i < vars.len()
                invariant
                    i <= vars@.len(),
                    *env_vars == Some(*vars),
                    forall|k: int| 0 <= k < i ==> valid_key((#[trigger] vars@[k]).0@),
                decreases vars@.len() - i,
            {
                let pair = &vars[i];
                let key: &String = &pair.0;
                if !is_valid_key(key.as_str()) {
                    proof {
                        let v = env_vars.unwrap();
                        assert(v@[i as int].0@ == vars@[i as int].0@);
                        assert(!valid_key(v@[i as int].0@));
                    }
                    let reason = String::from_str("Invalid key '").concat(key.as_str()).concat(
                        "': only alphanumeric, underscore, dash",
                    );
                    return Err(DatabaseError::InvalidData { field: "env_vars", reason });
                }
                i = i + 1;
            }
            let mut a: usize = 0;
            while a < vars.len()
                invariant
                    a <= vars@.len(),
                    *env_vars == Some(*vars),
                    forall|k: int| 0 <= k < vars@.len() ==> valid_key((#[trigger] vars@[k]).0@),
                    forall|x: int, y: int| 0 <= x < a && 0 <= y < vars@.len() && x != y ==> (#[trigger] vars@[x]).0@ != (#[trigger] vars@[y]).0@,
                decreases vars@.len() - a,
            {
                let mut b: usize = 0;
                while b < vars.len()
                    invariant
                        a < vars@.len(),
                        b <= vars@.len(),
                        *env_vars == Some(*vars),
                        forall|y: int| 0 <= y < b && y != a ==> vars@[a as int].0@ != (#[trigger] vars@[y]).0@,
                    decreases vars@.len() - b,
                {
                    if b != a && vars[a].0 == vars[b].0 {
                        proof {
                            let v = env_vars.unwrap();
                            assert(v@[a as int].0@ == v@[b as int].0@);
                            assert(!distinct_keys(v@));
                        }
                        let reason = String::from_str("Duplicate key '").concat(vars[a].0.as_str()).concat("'");
                        return Err(DatabaseError::InvalidData { field: "env_vars", reason });
                    }
                    b = b + 1;
                }
                a = a + 1;
            }
            assert(env_ok(*env_vars));
            Ok(())
        },
    }
}


pub proof fn lemma_table_push(base: Seq<Slot>, s: Slot, next: int)
    requires
        table_ok(base, next),
        s.id as int == next,
        0 <= s.position <= POSITION_LIMIT,
        next + 1 < ID_LIMIT,
    ensures
        table_ok(base.push(s), next + 1),
{
    let t = base.push(s);
    assert forall|i: int, j: int| 0 <= i < t.len() && 0 <= j < t.len() && i != j implies t[i].id
        != t[j].id by {
        if i < base.len() && j < base.len() {
            assert(t[i] == base[i] && t[j] == base[j]);
        }
    }
}

pub proof fn lemma_table_grow(ss: Seq<Slot>, next: int)
    requires
        table_ok(ss, next),
        next + 1 < ID_LIMIT,
    ensures
        table_ok(ss, next + 1),
{
}

pub proof fn lemma_slots_push<T: Positioned>(rows: Seq<T>, x: T)
    ensures
        slots(rows.push(x)) == slots(rows).push(x.slot()),
{
    assert(slots(rows.push(x)) =~= slots(rows).push(x.slot()));
}

/// The name is used by a category other than `except`.
pub open spec fn name_taken(cats: Seq<Category>, name: Seq<char>, except: Option<i64>) -> bool {
    exists|i: int| 0 <= i < cats.len() && cats[i].name@ == name && Some(cats[i].id) != except
}

impl Database {
    /// The other tables, the id counter and the clock are as in `old`.
    pub open spec fn only_groups_changed(&self, old: &Database) -> bool {
        &&& self.categories == old.categories
        &&& self.commands == old.commands
        &&& self.workflows == old.workflows
        &&& self.steps == old.steps
        &&& self.history == old.history
        &&& self.settings == old.settings
    }

    pub open spec fn only_commands_changed(&self, old: &Database) -> bool {
        &&& self.categories == old.categories
        &&& self.groups == old.groups
        &&& self.workflows == old.workflows
        &&& self.steps == old.steps
        &&& self.history == old.history
        &&& self.settings == old.settings
    }

    pub open spec fn only_workflows_changed(&self, old: &Database) -> bool {
        &&& self.categories == old.categories
        &&& self.groups == old.groups
        &&& self.commands == old.commands
        &&& self.steps == old.steps
        &&& self.history == old.history
        &&& self.settings == old.settings
    }

    pub open spec fn only_steps_changed(&self, old: &Database) -> bool {
        &&& self.categories == old.categories
        &&& self.groups == old.groups
        &&& self.commands == old.commands
        &&& self.workflows == old.workflows
        &&& self.history == old.history
        &&& self.settings == old.settings
    }

    pub open spec fn only_history_changed(&self, old: &Database) -> bool {
        &&& self.categories == old.categories
        &&& self.groups == old.groups
        &&& self.commands == old.commands
        &&& self.workflows == old.workflows
        &&& self.steps == old.steps
        &&& self.settings == old.settings
    }

    /// One id was handed out; the clock is as it was.
    pub open spec fn allocated(&self, old: &Database, id: i64) -> bool {
        &&& id == old.next_id
        &&& self.next_id == old.next_id + 1
        &&& self.clock == old.clock
    }

    /// `self` holds the rows of `old` (renumbered where a fresh position
    /// would leave the range) followed by the new group built from `g`.
    pub open spec fn group_inserted(&self, old: &Database, g: &Group, id: i64) -> bool {
        let base = before_insert(slots(old.groups@), g.parent_group_id);
        &&& self.allocated(old, id)
        &&& self.only_groups_changed(old)
        &&& self.groups@.len() == old.groups@.len() + 1
        &&& repositioned(old.groups@, self.groups@.drop_last(), base)
        &&& self.groups@.last().same_as(
            &Group {
                id,
                position: fresh_position(base, g.parent_group_id) as i64,
                created_at: old.clock,
                updated_at: old.clock,
                ..*g
            },
        )
    }

    pub open spec fn command_inserted(&self, old: &Database, c: &Command, id: i64) -> bool {
        let base = before_insert(slots(old.commands@), c.group_id);
        &&& self.allocated(old, id)
        &&& self.only_commands_changed(old)
        &&& self.commands@.len() == old.commands@.len() + 1
        &&& repositioned(old.commands@, self.commands@.drop_last(), base)
        &&& self.commands@.last().same_as(
            &Command {
                id,
                position: fresh_position(base, c.group_id) as i64,
                created_at: old.clock,
                updated_at: old.clock,
                ..*c
            },
        )
    }

    pub open spec fn workflow_inserted(&self, old: &Database, w: &Workflow, id: i64) -> bool {
        let base = before_insert(slots(old.workflows@), None);
        &&& self.allocated(old, id)
        &&& self.only_workflows_changed(old)
        &&& self.workflows@.len() == old.workflows@.len() + 1
        &&& repositioned(old.workflows@, self.workflows@.drop_last(), base)
        &&& self.workflows@.last() == (Workflow {
            id,
            position: fresh_position(base, None) as i64,
            created_at: old.clock,
            updated_at: old.clock,
            ..*w
        })
    }

    pub open spec fn step_inserted(&self, old: &Database, st: &WorkflowStep, id: i64) -> bool {
        let base = before_insert(slots(old.steps@), Some(st.workflow_id));
        &&& self.allocated(old, id)
        &&& self.only_steps_changed(old)
        &&& self.steps@.len() == old.steps@.len() + 1
        &&& repositioned(old.steps@, self.steps@.drop_last(), base)
        &&& self.steps@.last() == (WorkflowStep {
            id,
            position: fresh_position(base, Some(st.workflow_id)) as i64,
            created_at: old.clock,
            updated_at: old.clock,
            ..*st
        })
    }

    fn take_id(&mut self) -> (id: i64)
        requires
            0 < old(self).next_id,
            old(self).has_room(),
        ensures
            id == old(self).next_id,
            *final(self) == (Database { next_id: (old(self).next_id + 1) as i64, ..*old(self) }),
    {
        let id = self.next_id;
        self.next_id = self.next_id + 1;
        id
    }

    /// Adds a group at the end of its sibling set and returns its id.
    pub fn create_group(&mut self, group: &Group) -> (r: Result<i64>)
        requires
            old(self).wf(),
        ensures
            final(self).wf(),
            blank(group.name@) ==> invalid(r, "name"),
            !blank(group.name@) && !env_ok(group.env_vars) ==> invalid(r, "env_vars"),
            !blank(group.name@) && env_ok(group.env_vars) && !old(self).has_group(group.parent_group_id)
                ==> fk_violation(r, "parent_group_id", group.parent_group_id.unwrap()),
            !blank(group.name@) && env_ok(group.env_vars) && old(self).has_group(group.parent_group_id)
                && !old(self).has_category(group.category_id) ==> fk_violation(
                r,
                "category_id",
                group.category_id.unwrap(),
            ),
            r is Ok <==> !blank(group.name@) && env_ok(group.env_vars) && old(self).has_group(
                group.parent_group_id,
            ) && old(self).has_category(group.category_id) && old(self).has_room(),
            !old(self).has_room() && r is Err ==> internal(r) || invalid(r, "name") || invalid(r, "env_vars")
                || r matches Err(DatabaseError::ForeignKeyViolation { .. }),
            r is Err ==> *final(self) == *old(self),
            r matches Ok(id) ==> final(self).group_inserted(old(self), group, id),
    {
        match validate_non_empty("name", group.name.as_str()) {
            Err(e) => return Err(e),
            Ok(_) => {},
        }
        match validate_env_var_keys(&group.env_vars) {
            Err(e) => return Err(e),
            Ok(_) => {},
        }
        if !self.group_exists(group.parent_group_id) {
            return Err(
                DatabaseError::ForeignKeyViolation {
                    field: "parent_group_id",
                    referenced_id: group.parent_group_id.unwrap(),
                },
            );
        }
        if !self.category_exists(group.category_id) {
            return Err(
                DatabaseError::ForeignKeyViolation {
                    field: "category_id",
                    referenced_id: group.category_id.unwrap(),
                },
            );
        }
        if self.next_id >= ID_LIMIT - 1 {
            return Err(DatabaseError::Internal(String::from_str("id space exhausted")));
        }
        let ghost old_db = *self;
        let position = next_position(&mut self.groups, group.parent_group_id);
        let id = self.take_id();
        let now = self.stamp();
        let row = Group {
            id,
            name: group.name.clone(),
            description: copy_text(&group.description),
            parent_group_id: group.parent_group_id,
            position,
            working_directory: copy_text(&group.working_directory),
            env_vars: copy_env(&group.env_vars),
            shell: copy_text(&group.shell),
            category_id: group.category_id,
            is_favorite: group.is_favorite,
            icon: copy_text(&group.icon),
            created_at: now,
            updated_at: now,
        };
        let ghost mid = self.groups@;
        self.groups.push(row);
        proof {
            assert(self.groups@.drop_last() =~= mid);
            lemma_slots_push(mid, row);
            lemma_table_push(slots(mid), row.slot(), old_db.next_id as int);
            lemma_push_covers(slots(mid), row.slot());
            lemma_same_ids(slots(old_db.groups@), slots(mid));
            assert(slots(self.groups@) == slots(mid).push(row.slot()));
            lemma_refs_frame(old_db, *self);
            lemma_table_grow(cat_slots(self.categories@), old_db.next_id as int);
            lemma_table_grow(slots(self.commands@), old_db.next_id as int);
            lemma_table_grow(slots(self.workflows@), old_db.next_id as int);
            lemma_table_grow(slots(self.steps@), old_db.next_id as int);
            lemma_table_grow(hist_slots(self.history@), old_db.next_id as int);
        }
        Ok(id)
    }
}

impl Database {
    /// Adds a command at the end of its group's sibling set and returns its id.
    pub fn create_command(&mut self, cmd: &Command) -> (r: Result<i64>)
        requires
            old(self).wf(),
        ensures
            final(self).wf(),
            blank(cmd.name@) ==> invalid(r, "name"),
            !blank(cmd.name@) && blank(cmd.command@) ==> invalid(r, "command"),
            !blank(cmd.name@) && !blank(cmd.command@) && !env_ok(cmd.env_vars) ==> invalid(r, "env_vars"),
            !blank(cmd.name@) && !blank(cmd.command@) && env_ok(cmd.env_vars) && !old(self).has_group(
                cmd.group_id,
            ) ==> fk_violation(r, "group_id", cmd.group_id.unwrap()),
            !blank(cmd.name@) && !blank(cmd.command@) && env_ok(cmd.env_vars) && old(self).has_group(
                cmd.group_id,
            ) && !old(self).has_category(cmd.category_id) ==> fk_violation(
                r,
                "category_id",
                cmd.category_id.unwrap(),
            ),
            r is Ok <==> !blank(cmd.name@) && !blank(cmd.command@) && env_ok(cmd.env_vars) && old(
                self,
            ).has_group(cmd.group_id) && old(self).has_category(cmd.category_id) && old(self).has_room(),
            r is Err ==> *final(self) == *old(self),
            r matches Ok(id) ==> final(self).command_inserted(old(self), cmd, id),
    {
        match validate_non_empty("name", cmd.name.as_str()) {
            Err(e) => return Err(e),
            Ok(_) => {},
        }
        match validate_non_empty("command", cmd.command.as_str()) {
            Err(e) => return Err(e),
            Ok(_) => {},
        }
        match validate_env_var_keys(&cmd.env_vars) {
            Err(e) => return Err(e),
            Ok(_) => {},
        }
        if !self.group_exists(cmd.group_id) {
            return Err(
                DatabaseError::ForeignKeyViolation {
                    field: "group_id",
                    referenced_id: cmd.group_id.unwrap(),
                },
            );
        }
        if !self.category_exists(cmd.category_id) {
            return Err(
                DatabaseError::ForeignKeyViolation {
                    field: "category_id",
                    referenced_id: cmd.category_id.unwrap(),
                },
            );
        }
        if self.next_id >= ID_LIMIT - 1 {
            return Err(DatabaseError::Internal(String::from_str("id space exhausted")));
        }
        let ghost old_db = *self;
        let position = next_position(&mut self.commands, cmd.group_id);
        let id = self.take_id();
        let now = self.stamp();
        let row = Command {
            id,
            name: cmd.name.clone(),
            command: cmd.command.clone(),
            arguments: copy_strings(&cmd.arguments),
            description: copy_text(&cmd.description),
            group_id: cmd.group_id,
            position,
            working_directory: copy_text(&cmd.working_directory),
            env_vars: copy_env(&cmd.env_vars),
            shell: copy_text(&cmd.shell),
            category_id: cmd.category_id,
            is_favorite: cmd.is_favorite,
            created_at: now,
            updated_at: now,
        };
        let ghost mid = self.commands@;
        self.commands.push(row);
        proof {
            assert(self.commands@.drop_last() =~= mid);
            lemma_slots_push(mid, row);
            lemma_table_push(slots(mid), row.slot(), old_db.next_id as int);
            lemma_push_covers(slots(mid), row.slot());
            lemma_same_ids(slots(old_db.commands@), slots(mid));
            assert(slots(self.commands@) == slots(mid).push(row.slot()));
            lemma_refs_frame(old_db, *self);
            lemma_table_grow(cat_slots(self.categories@), old_db.next_id as int);
            lemma_table_grow(slots(self.groups@), old_db.next_id as int);
            lemma_table_grow(slots(self.workflows@), old_db.next_id as int);
            lemma_table_grow(slots(self.steps@), old_db.next_id as int);
            lemma_table_grow(hist_slots(self.history@), old_db.next_id as int);
        }
        Ok(id)
    }

    /// Adds a workflow at the end of the single workflow ordering and returns its id.
    pub fn create_workflow(&mut self, workflow: &Workflow) -> (r: Result<i64>)
        requires
            old(self).wf(),
        ensures
            final(self).wf(),
            blank(workflow.name@) ==> invalid(r, "name"),
            !blank(workflow.name@) && !old(self).has_category(workflow.category_id) ==> fk_violation(
                r,
                "category_id",
                workflow.category_id.unwrap(),
            ),
            r is Ok <==> !blank(workflow.name@) && old(self).has_category(workflow.category_id) && old(
                self,
            ).has_room(),
            r is Err ==> *final(self) == *old(self),
            r matches Ok(id) ==> final(self).workflow_inserted(old(self), workflow, id),
    {
        match validate_non_empty("name", workflow.name.as_str()) {
            Err(e) => return Err(e),
            Ok(_) => {},
        }
        if !self.category_exists(workflow.category_id) {
            return Err(
                DatabaseError::ForeignKeyViolation {
                    field: "category_id",
                    referenced_id: workflow.category_id.unwrap(),
                },
            );
        }
        if self.next_id >= ID_LIMIT - 1 {
            return Err(DatabaseError::Internal(String::from_str("id space exhausted")));
        }
        let ghost old_db = *self;
        let position = next_position(&mut self.workflows, None);
        let id = self.take_id();
        let now = self.stamp();
        let row = Workflow {
            id,
            name: workflow.name.clone(),
            description: copy_text(&workflow.description),
            category_id: workflow.category_id,
            is_favorite: workflow.is_favorite,
            execution_mode: workflow.execution_mode,
            position,
            created_at: now,
            updated_at: now,
        };
        let ghost mid = self.workflows@;
        self.workflows.push(row);
        proof {
            assert(self.workflows@.drop_last() =~= mid);
            lemma_slots_push(mid, row);
            lemma_table_push(slots(mid), row.slot(), old_db.next_id as int);
            lemma_push_covers(slots(mid), row.slot());
            lemma_same_ids(slots(old_db.workflows@), slots(mid));
            assert(slots(self.workflows@) == slots(mid).push(row.slot()));
            lemma_refs_frame(old_db, *self);
            lemma_table_grow(cat_slots(self.categories@), old_db.next_id as int);
            lemma_table_grow(slots(self.groups@), old_db.next_id as int);
            lemma_table_grow(slots(self.commands@), old_db.next_id as int);
            lemma_table_grow(slots(self.steps@), old_db.next_id as int);
            lemma_table_grow(hist_slots(self.history@), old_db.next_id as int);
        }
        Ok(id)
    }

    /// Adds a step at the end of its workflow and returns its id. The
    /// workflow and the command it names must exist.
    pub fn create_workflow_step(&mut self, step: &WorkflowStep) -> (r: Result<i64>)
        requires
            old(self).wf(),
        ensures
            final(self).wf(),
            !has_id(slots(old(self).workflows@), step.workflow_id) ==> not_found(
                r,
                WORKFLOWS_TABLE,
                step.workflow_id,
            ),
            has_id(slots(old(self).workflows@), step.workflow_id) && !has_id(
                slots(old(self).commands@),
                step.command_id,
            ) ==> not_found(r, COMMANDS_TABLE, step.command_id),
            r is Ok <==> has_id(slots(old(self).workflows@), step.workflow_id) && has_id(
                slots(old(self).commands@),
                step.command_id,
            ) && old(self).has_room(),
            r is Err ==> *final(self) == *old(self),
            r matches Ok(id) ==> final(self).step_inserted(old(self), step, id),
    {
        if find_row(&self.workflows, step.workflow_id).is_none() {
            return Err(DatabaseError::NotFound { entity: WORKFLOWS_TABLE, id: step.workflow_id });
        }
        if find_row(&self.commands, step.command_id).is_none() {
            return Err(DatabaseError::NotFound { entity: COMMANDS_TABLE, id: step.command_id });
        }
        if self.next_id >= ID_LIMIT - 1 {
            return Err(DatabaseError::Internal(String::from_str("id space exhausted")));
        }
        let ghost old_db = *self;
        let position = next_position(&mut self.steps, Some(step.workflow_id));
        let id = self.take_id();
        let now = self.stamp();
        let row = WorkflowStep {
            id,
            workflow_id: step.workflow_id,
            command_id: step.command_id,
            position,
            condition: step.condition,
            timeout_seconds: step.timeout_seconds,
            auto_retry_count: step.auto_retry_count,
            enabled: step.enabled,
            continue_on_failure: step.continue_on_failure,
            created_at: now,
            updated_at: now,
        };
        let ghost mid = self.steps@;
        self.steps.push(row);
        proof {
            assert(self.steps@.drop_last() =~= mid);
            lemma_slots_push(mid, row);
            lemma_table_push(slots(mid), row.slot(), old_db.next_id as int);
            lemma_push_covers(slots(mid), row.slot());
            lemma_same_ids(slots(old_db.steps@), slots(mid));
            assert(slots(self.steps@) == slots(mid).push(row.slot()));
            lemma_refs_frame(old_db, *self);
            lemma_table_grow(cat_slots(self.categories@), old_db.next_id as int);
            lemma_table_grow(slots(self.groups@), old_db.next_id as int);
            lemma_table_grow(slots(self.commands@), old_db.next_id as int);
            lemma_table_grow(slots(self.workflows@), old_db.next_id as int);
            lemma_table_grow(hist_slots(self.history@), old_db.next_id as int);
        }
        Ok(id)
    }

    /// True when a category other than `except` already has the name.
    fn name_in_use(&self, name: &str, except: Option<i64>) -> (r: bool)
        ensures
            r == name_taken(self.categories@, name@, except),
    {
        let mut i: usize = 0;
        while i < self.categories.len()
            invariant
                i <= self.categories@.len(),
                forall|k: int| 0 <= k < i ==> !(self.categories@[k].name@ == name@ && Some(
                    self.categories@[k].id,
                ) != except),
            decreases self.categories@.len() - i,
        {
            let c = &self.categories[i];
            let other = match except {
                Some(x) => c.id != x,
                None => true,
            };
            if other && c.name.as_str().unicode_len() == name.unicode_len() && c.name == String::from_str(name) {
                return true;
            }
            i = i + 1;
        }
        false
    }

    /// Adds a category with a unique, non-blank name and returns its id.
    pub fn create_category(&mut self, name: &str, icon: Option<&str>, color: Option<&str>) -> (r: Result<
        i64,
    >)
        requires
            old(self).wf(),
        ensures
            final(self).wf(),
            blank(name@) ==> invalid(r, "name"),
            !blank(name@) && name_taken(old(self).categories@, name@, None) ==> internal(r),
            r is Ok <==> !blank(name@) && !name_taken(old(self).categories@, name@, None) && old(
                self,
            ).has_room(),
            r is Err ==> *final(self) == *old(self),
            r matches Ok(id) ==> {
                &&& final(self).allocated(old(self), id)
                &&& final(self).groups == old(self).groups
                &&& final(self).commands == old(self).commands
                &&& final(self).workflows == old(self).workflows
                &&& final(self).steps == old(self).steps
                &&& final(self).history == old(self).history
                &&& final(self).settings == old(self).settings
                &&& final(self).categories@.len() == old(self).categories@.len() + 1
                &&& final(self).categories@.drop_last() == old(self).categories@
                &&& final(self).categories@.last().id == id
                &&& final(self).categories@.last().name@ == name@
                &&& text_view(final(self).categories@.last().icon) == str_view(icon)
                &&& text_view(final(self).categories@.last().color) == str_view(color)
                &&& final(self).categories@.last().created_at == old(self).clock
            },
    {
        match validate_non_empty("name", name) {
            Err(e) => return Err(e),
            Ok(_) => {},
        }
        if self.name_in_use(name, None) {
            return Err(
                DatabaseError::Internal(String::from_str("UNIQUE constraint failed: categories.name")),
            );
        }
        if self.next_id >= ID_LIMIT - 1 {
            return Err(DatabaseError::Internal(String::from_str("id space exhausted")));
        }
        let ghost old_db = *self;
        let id = self.take_id();
        let now = self.stamp();
        let row = Category {
            id,
            name: String::from_str(name),
            icon: owned_text(icon),
            color: owned_text(color),
            created_at: now,
        };
        let ghost mid = self.categories@;
        self.categories.push(row);
        proof {
            assert(self.categories@.drop_last() =~= mid);
            assert(cat_slots(self.categories@) =~= cat_slots(mid).push(
                Slot { id, parent: None, position: 0 },
            ));
            lemma_table_push(cat_slots(mid), Slot { id, parent: None, position: 0 }, old_db.next_id as int);
            lemma_push_covers(cat_slots(mid), Slot { id, parent: None, position: 0 });
            lemma_refs_frame(old_db, *self);
            lemma_table_grow(slots(self.groups@), old_db.next_id as int);
            lemma_table_grow(slots(self.commands@), old_db.next_id as int);
            lemma_table_grow(slots(self.workflows@), old_db.next_id as int);
            lemma_table_grow(slots(self.steps@), old_db.next_id as int);
            lemma_table_grow(hist_slots(self.history@), old_db.next_id as int);
        }
        Ok(id)
    }
}

pub open spec fn str_view(s: Option<&str>) -> Option<Seq<char>> {
    match s {
        Some(t) => Some(t@),
        None => None,
    }
}

pub open spec fn text_view(s: Option<String>) -> Option<Seq<char>> {
    match s {
        Some(t) => Some(t@),
        None => None,
    }
}

fn owned_text(s: Option<&str>) -> (r: Option<String>)
    ensures
        text_view(r) == str_view(s),
{
    match s {
        Some(t) => Some(String::from_str(t)),
        None => None,
    }
}

/// Positions changed but ids kept: the table stays well formed.
pub proof fn lemma_table_repositioned(before: Seq<Slot>, after: Seq<Slot>, next: int)
    requires
        table_ok(before, next),
        slots_wf(after),
        after.len() == before.len(),
        forall|i: int| 0 <= i < before.len() ==> (#[trigger] after[i]).id == before[i].id,
    ensures
        table_ok(after, next),
{
}

pub proof fn lemma_moved_ids(ss: Seq<Slot>, item: int, prev: Option<int>, next: Option<int>)
    requires
        0 <= item < ss.len(),
    ensures
        moved(ss, item, prev, next).len() == ss.len(),
        forall|i: int| 0 <= i < ss.len() ==> (#[trigger] moved(ss, item, prev, next)[i]).id == ss[i].id,
{
}

impl Database {
    /// The command with the given id.
    pub fn get_command(&self, id: i64) -> (r: Result<Command>)
        requires
            self.wf(),
        ensures
            r is Ok <==> has_id(slots(self.commands@), id),
            r is Err ==> not_found(r, COMMANDS_TABLE, id),
            r matches Ok(c) ==> c.same_as(&self.commands@[index_of(slots(self.commands@), id)]),
    {
        match find_row(&self.commands, id) {
            None => Err(DatabaseError::NotFound { entity: COMMANDS_TABLE, id }),
            Some(i) => Ok(self.commands[i].duplicate()),
        }
    }

    /// Moves a command between two of its siblings; see `move_item_between`.
    pub fn move_command_between(&mut self, id: i64, prev_id: Option<i64>, next_id: Option<i64>) -> (r:
        Result<()>)
        requires
            old(self).wf(),
        ensures
            final(self).wf(),
            move_done(old(self).commands@, final(self).commands@, COMMANDS_TABLE, id, prev_id, next_id, r),
            final(self).only_commands_changed(old(self)),
            final(self).next_id == old(self).next_id,
            final(self).settings == old(self).settings,
            final(self).clock == old(self).clock,
    {
        let ghost ss = slots(self.commands@);
        let r = move_item_between(&mut self.commands, COMMANDS_TABLE, id, prev_id, next_id);
        proof {
            if r is Ok {
                lemma_moved_ids(ss, index_of(ss, id), opt_index(ss, prev_id), opt_index(ss, next_id));
                lemma_table_repositioned(ss, slots(self.commands@), self.next_id as int);
                lemma_same_ids(ss, slots(self.commands@));
                lemma_refs_frame(*old(self), *self);
            }
        }
        r
    }

    /// The group with the given id.
    pub fn get_group(&self, id: i64) -> (r: Result<Group>)
        requires
            self.wf(),
        ensures
            r is Ok <==> has_id(slots(self.groups@), id),
            r is Err ==> not_found(r, GROUPS_TABLE, id),
            r matches Ok(c) ==> c.same_as(&self.groups@[index_of(slots(self.groups@), id)]),
    {
        match find_row(&self.groups, id) {
            None => Err(DatabaseError::NotFound { entity: GROUPS_TABLE, id }),
            Some(i) => Ok(self.groups[i].duplicate()),
        }
    }

    /// Moves a group between two of its siblings; see `move_item_between`.
    pub fn move_group_between(&mut self, id: i64, prev_id: Option<i64>, next_id: Option<i64>) -> (r:
        Result<()>)
        requires
            old(self).wf(),
        ensures
            final(self).wf(),
            move_done(old(self).groups@, final(self).groups@, GROUPS_TABLE, id, prev_id, next_id, r),
            final(self).only_groups_changed(old(self)),
            final(self).next_id == old(self).next_id,
            final(self).settings == old(self).settings,
            final(self).clock == old(self).clock,
    {
        let ghost ss = slots(self.groups@);
        let r = move_item_between(&mut self.groups, GROUPS_TABLE, id, prev_id, next_id);
        proof {
            if r is Ok {
                lemma_moved_ids(ss, index_of(ss, id), opt_index(ss, prev_id), opt_index(ss, next_id));
                lemma_table_repositioned(ss, slots(self.groups@), self.next_id as int);
                lemma_same_ids(ss, slots(self.groups@));
                lemma_refs_frame(*old(self), *self);
            }
        }
        r
    }

    /// The workflow with the given id.
    pub fn get_workflow(&self, id: i64) -> (r: Result<Workflow>)
        requires
            self.wf(),
        ensures
            r is Ok <==> has_id(slots(self.workflows@), id),
            r is Err ==> not_found(r, WORKFLOWS_TABLE, id),
            r matches Ok(c) ==> c == self.workflows@[index_of(slots(self.workflows@), id)],
    {
        match find_row(&self.workflows, id) {
            None => Err(DatabaseError::NotFound { entity: WORKFLOWS_TABLE, id }),
            Some(i) => Ok(self.workflows[i].duplicate()),
        }
    }

    /// Moves a workflow between two of its siblings; see `move_item_between`.
    pub fn move_workflow_between(&mut self, id: i64, prev_id: Option<i64>, next_id: Option<i64>) -> (r:
        Result<()>)
        requires
            old(self).wf(),
        ensures
            final(self).wf(),
            move_done(old(self).workflows@, final(self).workflows@, WORKFLOWS_TABLE, id, prev_id, next_id, r),
            final(self).only_workflows_changed(old(self)),
            final(self).next_id == old(self).next_id,
            final(self).settings == old(self).settings,
            final(self).clock == old(self).clock,
    {
        let ghost ss = slots(self.workflows@);
        let r = move_item_between(&mut self.workflows, WORKFLOWS_TABLE, id, prev_id, next_id);
        proof {
            if r is Ok {
                lemma_moved_ids(ss, index_of(ss, id), opt_index(ss, prev_id), opt_index(ss, next_id));
                lemma_table_repositioned(ss, slots(self.workflows@), self.next_id as int);
                lemma_same_ids(ss, slots(self.workflows@));
                lemma_refs_frame(*old(self), *self);
            }
        }
        r
    }

    /// The workflow_step with the given id.
    pub fn get_workflow_step(&self, id: i64) -> (r: Result<WorkflowStep>)
        requires
            self.wf(),
        ensures
            r is Ok <==> has_id(slots(self.steps@), id),
            r is Err ==> not_found(r, WORKFLOW_STEPS_TABLE, id),
            r matches Ok(c) ==> c == self.steps@[index_of(slots(self.steps@), id)],
    {
        match find_row(&self.steps, id) {
            None => Err(DatabaseError::NotFound { entity: WORKFLOW_STEPS_TABLE, id }),
            Some(i) => Ok(self.steps[i].duplicate()),
        }
    }

    /// Moves a workflow_step between two of its siblings; see `move_item_between`.
    pub fn move_workflow_step_between(&mut self, id: i64, prev_id: Option<i64>, next_id: Option<i64>) -> (r:
        Result<()>)
        requires
            old(self).wf(),
        ensures
            final(self).wf(),
            move_done(old(self).steps@, final(self).steps@, WORKFLOW_STEPS_TABLE, id, prev_id, next_id, r),
            final(self).only_steps_changed(old(self)),
            final(self).next_id == old(self).next_id,
            final(self).settings == old(self).settings,
            final(self).clock == old(self).clock,
    {
        let ghost ss = slots(self.steps@);
        let r = move_item_between(&mut self.steps, WORKFLOW_STEPS_TABLE, id, prev_id, next_id);
        proof {
            if r is Ok {
                lemma_moved_ids(ss, index_of(ss, id), opt_index(ss, prev_id), opt_index(ss, next_id));
                lemma_table_repositioned(ss, slots(self.steps@), self.next_id as int);
                lemma_same_ids(ss, slots(self.steps@));
                lemma_refs_frame(*old(self), *self);
            }
        }
        r
    }

}

/// The proposed parent keeps the parent chain free of loops.
pub open spec fn parent_ok(gs: Seq<Slot>, g: &Group) -> bool {
    match g.parent_group_id {
        None => true,
        Some(p) => parent_check(gs, g.id, p) == Walk::Safe,
    }
}

/// One row replaced; ids and positions kept: the table stays well formed.
pub proof fn lemma_table_replace(ss: Seq<Slot>, i: int, s: Slot, next: int)
    requires
        table_ok(ss, next),
        0 <= i < ss.len(),
        s.id == ss[i].id,
        s.position == ss[i].position,
    ensures
        table_ok(ss.update(i, s), next),
{
    let t = ss.update(i, s);
    assert forall|a: int, b: int| 0 <= a < t.len() && 0 <= b < t.len() && a != b implies t[a].id
        != t[b].id by {
        assert(t[a].id == ss[a].id && t[b].id == ss[b].id);
    }
    assert forall|a: int| 0 <= a < t.len() implies 0 <= #[trigger] t[a].position <= POSITION_LIMIT by {
        assert(t[a].position == ss[a].position);
    }
}

pub proof fn lemma_slots_update<T: Positioned>(rows: Seq<T>, i: int, x: T)
    requires
        0 <= i < rows.len(),
    ensures
        slots(rows.update(i, x)) == slots(rows).update(i, x.slot()),
{
    assert(slots(rows.update(i, x)) =~= slots(rows).update(i, x.slot()));
}

impl Database {
    /// Replaces a group's fields but its position, favourite flag and
    /// creation time, after checking the new values and the parent chain.
    pub fn update_group(&mut self, group: &Group) -> (r: Result<()>)
        requires
            old(self).wf(),
        ensures
            final(self).wf(),
            ({
                let gs = slots(old(self).groups@);
                let valid = !blank(group.name@) && env_ok(group.env_vars);
                let i = index_of(gs, group.id);
                &&& blank(group.name@) ==> invalid(r, "name")
                &&& !blank(group.name@) && !env_ok(group.env_vars) ==> invalid(r, "env_vars")
                &&& valid && group.parent_group_id is Some && parent_check(gs, group.id, group.parent_group_id.unwrap())
                    == Walk::Cycle ==> circular(r, group.id, group.parent_group_id.unwrap())
                &&& valid && group.parent_group_id is Some && parent_check(gs, group.id, group.parent_group_id.unwrap()) is Missing
                    ==> not_found_group(r, parent_check(gs, group.id, group.parent_group_id.unwrap())->Missing_0)
                &&& valid && parent_ok(gs, group) && !has_id(gs, group.id) ==> not_found(r, GROUPS_TABLE, group.id)
                &&& valid && parent_ok(gs, group) && has_id(gs, group.id) && !old(self).has_category(group.category_id)
                    ==> fk_violation(r, "category_id", group.category_id.unwrap())
                &&& r is Ok <==> valid && parent_ok(gs, group) && has_id(gs, group.id) && old(self).has_category(group.category_id)
                &&& r is Err ==> *final(self) == *old(self)
                &&& r is Ok ==> {
                    &&& final(self).only_groups_changed(old(self))
                    &&& final(self).next_id == old(self).next_id
                    &&& final(self).settings == old(self).settings
                    &&& final(self).clock == old(self).clock
                    &&& final(self).groups@.len() == old(self).groups@.len()
                    &&& forall|k: int| 0 <= k < gs.len() && k != i ==> final(self).groups@[k] == old(self).groups@[k]
                    &&& final(self).groups@[i].same_as(&Group {
                        position: old(self).groups@[i].position,
                        is_favorite: old(self).groups@[i].is_favorite,
                        created_at: old(self).groups@[i].created_at,
                        updated_at: old(self).clock,
                        ..*group
                    })
                }
            }),
    {
        match validate_non_empty("name", group.name.as_str()) {
            Err(e) => return Err(e),
            Ok(_) => {},
        }
        match validate_env_var_keys(&group.env_vars) {
            Err(e) => return Err(e),
            Ok(_) => {},
        }
        if let Some(parent_id) = group.parent_group_id {
            match validate_no_circular_reference(&self.groups, group.id, parent_id) {
                Err(e) => return Err(e),
                Ok(_) => {},
            }
        }
        let i = match find_row(&self.groups, group.id) {
            None => return Err(DatabaseError::NotFound { entity: GROUPS_TABLE, id: group.id }),
            Some(i) => i,
        };
        if !self.category_exists(group.category_id) {
            return Err(
                DatabaseError::ForeignKeyViolation {
                    field: "category_id",
                    referenced_id: group.category_id.unwrap(),
                },
            );
        }
        let now = self.stamp();
        let row = Group {
            id: group.id,
            name: group.name.clone(),
            description: copy_text(&group.description),
            parent_group_id: group.parent_group_id,
            position: self.groups[i].position,
            working_directory: copy_text(&group.working_directory),
            env_vars: copy_env(&group.env_vars),
            shell: copy_text(&group.shell),
            category_id: group.category_id,
            is_favorite: self.groups[i].is_favorite,
            icon: copy_text(&group.icon),
            created_at: self.groups[i].created_at,
            updated_at: now,
        };
        let ghost before = self.groups@;
        self.groups.set(i, row);
        proof {
            lemma_slots_update(before, i as int, row);
            lemma_same_ids(slots(before), slots(self.groups@));
            if group.parent_group_id is Some {
                assert(has_id(slots(before), group.parent_group_id.unwrap()));
            }
            lemma_refs_frame(*old(self), *self);
            lemma_table_replace(slots(before), i as int, row.slot(), self.next_id as int);
        }
        Ok(())
    }

    /// Replaces a command's fields but its position and creation time.
    pub fn update_command(&mut self, cmd: &Command) -> (r: Result<()>)
        requires
            old(self).wf(),
        ensures
            final(self).wf(),
            ({
                let cs = slots(old(self).commands@);
                let valid = !blank(cmd.name@) && !blank(cmd.command@) && env_ok(cmd.env_vars);
                let i = index_of(cs, cmd.id);
                &&& blank(cmd.name@) ==> invalid(r, "name")
                &&& !blank(cmd.name@) && blank(cmd.command@) ==> invalid(r, "command")
                &&& !blank(cmd.name@) && !blank(cmd.command@) && !env_ok(cmd.env_vars) ==> invalid(r, "env_vars")
                &&& valid && !has_id(cs, cmd.id) ==> not_found(r, COMMANDS_TABLE, cmd.id)
                &&& valid && has_id(cs, cmd.id) && !old(self).has_group(cmd.group_id) ==> fk_violation(r, "group_id", cmd.group_id.unwrap())
                &&& valid && has_id(cs, cmd.id) && old(self).has_group(cmd.group_id) && !old(self).has_category(cmd.category_id)
                    ==> fk_violation(r, "category_id", cmd.category_id.unwrap())
                &&& r is Ok <==> valid && has_id(cs, cmd.id) && old(self).has_group(cmd.group_id) && old(self).has_category(cmd.category_id)
                &&& r is Err ==> *final(self) == *old(self)
                &&& r is Ok ==> {
                    &&& final(self).only_commands_changed(old(self))
                    &&& final(self).next_id == old(self).next_id
                    &&& final(self).settings == old(self).settings
                    &&& final(self).clock == old(self).clock
                    &&& final(self).commands@.len() == old(self).commands@.len()
                    &&& forall|k: int| 0 <= k < cs.len() && k != i ==> final(self).commands@[k] == old(self).commands@[k]
                    &&& final(self).commands@[i].same_as(&Command {
                        position: old(self).commands@[i].position,
                        created_at: old(self).commands@[i].created_at,
                        updated_at: old(self).clock,
                        ..*cmd
                    })
                }
            }),
    {
        match validate_non_empty("name", cmd.name.as_str()) {
            Err(e) => return Err(e),
            Ok(_) => {},
        }
        match validate_non_empty("command", cmd.command.as_str()) {
            Err(e) => return Err(e),
            Ok(_) => {},
        }
        match validate_env_var_keys(&cmd.env_vars) {
            Err(e) => return Err(e),
            Ok(_) => {},
        }
        let i = match find_row(&self.commands, cmd.id) {
            None => return Err(DatabaseError::NotFound { entity: COMMANDS_TABLE, id: cmd.id }),
            Some(i) => i,
        };
        if !self.group_exists(cmd.group_id) {
            return Err(
                DatabaseError::ForeignKeyViolation { field: "group_id", referenced_id: cmd.group_id.unwrap() },
            );
        }
        if !self.category_exists(cmd.category_id) {
            return Err(
                DatabaseError::ForeignKeyViolation {
                    field: "category_id",
                    referenced_id: cmd.category_id.unwrap(),
                },
            );
        }
        let now = self.stamp();
        let row = Command {
            id: cmd.id,
            name: cmd.name.clone(),
            command: cmd.command.clone(),
            arguments: copy_strings(&cmd.arguments),
            description: copy_text(&cmd.description),
            group_id: cmd.group_id,
            position: self.commands[i].position,
            working_directory: copy_text(&cmd.working_directory),
            env_vars: copy_env(&cmd.env_vars),
            shell: copy_text(&cmd.shell),
            category_id: cmd.category_id,
            is_favorite: cmd.is_favorite,
            created_at: self.commands[i].created_at,
            updated_at: now,
        };
        let ghost before = self.commands@;
        self.commands.set(i, row);
        proof {
            lemma_slots_update(before, i as int, row);
            lemma_same_ids(slots(before), slots(self.commands@));
            lemma_refs_frame(*old(self), *self);
            lemma_table_replace(slots(before), i as int, row.slot(), self.next_id as int);
        }
        Ok(())
    }

    /// Replaces a workflow's name, description, category, mode and favourite flag.
    pub fn update_workflow(&mut self, workflow: &Workflow) -> (r: Result<()>)
        requires
            old(self).wf(),
        ensures
            final(self).wf(),
            ({
                let ws = slots(old(self).workflows@);
                let i = index_of(ws, workflow.id);
                &&& blank(workflow.name@) ==> invalid(r, "name")
                &&& !blank(workflow.name@) && !has_id(ws, workflow.id) ==> not_found(r, WORKFLOWS_TABLE, workflow.id)
                &&& !blank(workflow.name@) && has_id(ws, workflow.id) && !old(self).has_category(workflow.category_id)
                    ==> fk_violation(r, "category_id", workflow.category_id.unwrap())
                &&& r is Ok <==> !blank(workflow.name@) && has_id(ws, workflow.id) && old(self).has_category(workflow.category_id)
                &&& r is Err ==> *final(self) == *old(self)
                &&& r is Ok ==> {
                    &&& final(self).only_workflows_changed(old(self))
                    &&& final(self).next_id == old(self).next_id
                    &&& final(self).settings == old(self).settings
                    &&& final(self).clock == old(self).clock
                    &&& final(self).workflows@ == old(self).workflows@.update(i, Workflow {
                        position: old(self).workflows@[i].position,
                        created_at: old(self).workflows@[i].created_at,
                        updated_at: old(self).clock,
                        ..*workflow
                    })
                }
            }),
    {
        match validate_non_empty("name", workflow.name.as_str()) {
            Err(e) => return Err(e),
            Ok(_) => {},
        }
        let i = match find_row(&self.workflows, workflow.id) {
            None => return Err(DatabaseError::NotFound { entity: WORKFLOWS_TABLE, id: workflow.id }),
            Some(i) => i,
        };
        if !self.category_exists(workflow.category_id) {
            return Err(
                DatabaseError::ForeignKeyViolation {
                    field: "category_id",
                    referenced_id: workflow.category_id.unwrap(),
                },
            );
        }
        let now = self.stamp();
        let row = Workflow {
            id: workflow.id,
            name: workflow.name.clone(),
            description: copy_text(&workflow.description),
            category_id: workflow.category_id,
            is_favorite: workflow.is_favorite,
            execution_mode: workflow.execution_mode,
            position: self.workflows[i].position,
            created_at: self.workflows[i].created_at,
            updated_at: now,
        };
        let ghost before = self.workflows@;
        self.workflows.set(i, row);
        proof {
            lemma_slots_update(before, i as int, row);
            lemma_same_ids(slots(before), slots(self.workflows@));
            lemma_refs_frame(*old(self), *self);
            lemma_table_replace(slots(before), i as int, row.slot(), self.next_id as int);
        }
        Ok(())
    }

    /// Replaces a step's command, condition, limits and flags; its workflow
    /// and position stay. The command must exist.
    pub fn update_workflow_step(&mut self, step: &WorkflowStep) -> (r: Result<()>)
        requires
            old(self).wf(),
        ensures
            final(self).wf(),
            ({
                let ss = slots(old(self).steps@);
                let i = index_of(ss, step.id);
                &&& !has_id(slots(old(self).commands@), step.command_id) ==> not_found(r, COMMANDS_TABLE, step.command_id)
                &&& has_id(slots(old(self).commands@), step.command_id) && !has_id(ss, step.id)
                    ==> not_found(r, WORKFLOW_STEPS_TABLE, step.id)
                &&& r is Ok <==> has_id(slots(old(self).commands@), step.command_id) && has_id(ss, step.id)
                &&& r is Err ==> *final(self) == *old(self)
                &&& r is Ok ==> {
                    &&& final(self).only_steps_changed(old(self))
                    &&& final(self).next_id == old(self).next_id
                    &&& final(self).settings == old(self).settings
                    &&& final(self).clock == old(self).clock
                    &&& final(self).steps@ == old(self).steps@.update(i, WorkflowStep {
                        workflow_id: old(self).steps@[i].workflow_id,
                        position: old(self).steps@[i].position,
                        created_at: old(self).steps@[i].created_at,
                        updated_at: old(self).clock,
                        ..*step
                    })
                }
            }),
    {
        if find_row(&self.commands, step.command_id).is_none() {
            return Err(DatabaseError::NotFound { entity: COMMANDS_TABLE, id: step.command_id });
        }
        let i = match find_row(&self.steps, step.id) {
            None => return Err(DatabaseError::NotFound { entity: WORKFLOW_STEPS_TABLE, id: step.id }),
            Some(i) => i,
        };
        let now = self.stamp();
        let row = WorkflowStep {
            id: step.id,
            workflow_id: self.steps[i].workflow_id,
            command_id: step.command_id,
            position: self.steps[i].position,
            condition: step.condition,
            timeout_seconds: step.timeout_seconds,
            auto_retry_count: step.auto_retry_count,
            enabled: step.enabled,
            continue_on_failure: step.continue_on_failure,
            created_at: self.steps[i].created_at,
            updated_at: now,
        };
        let ghost before = self.steps@;
        self.steps.set(i, row);
        proof {
            lemma_slots_update(before, i as int, row);
            lemma_same_ids(slots(before), slots(self.steps@));
            lemma_refs_frame(*old(self), *self);
            lemma_table_replace(slots(before), i as int, row.slot(), self.next_id as int);
        }
        Ok(())
    }
}

impl Database {
    /// Flips the `is_favorite` flag of a row and stamps its update time.
    pub fn toggle_command_favorite(&mut self, id: i64) -> (r: Result<()>)
        requires
            old(self).wf(),
        ensures
            final(self).wf(),
            r is Ok <==> has_id(slots(old(self).commands@), id),
            r is Err ==> not_found(r, COMMANDS_TABLE, id) && *final(self) == *old(self),
            r is Ok ==> {
                let i = index_of(slots(old(self).commands@), id);
                &&& final(self).only_commands_changed(old(self))
                &&& final(self).next_id == old(self).next_id
                &&& final(self).settings == old(self).settings
                &&& final(self).clock == old(self).clock
                &&& final(self).commands@ == old(self).commands@.update(i, Command {
                    is_favorite: !old(self).commands@[i].is_favorite,
                    updated_at: old(self).clock,
                    ..old(self).commands@[i]
                })
            },
    {
        let i = match find_row(&self.commands, id) {
            None => return Err(DatabaseError::NotFound { entity: COMMANDS_TABLE, id }),
            Some(i) => i,
        };
        let now = self.stamp();
        let ghost before = self.commands@;
        let flipped = !self.commands[i].is_favorite;
        self.commands[i].is_favorite = flipped;
        self.commands[i].updated_at = now;
        proof {
            assert(self.commands@ == before.update(i as int, Command { is_favorite: flipped, updated_at: now, ..before[i as int] }));
            lemma_slots_update(before, i as int, self.commands@[i as int]);
            lemma_same_ids(slots(before), slots(self.commands@));
            lemma_refs_frame(*old(self), *self);
            lemma_table_replace(slots(before), i as int, self.commands@[i as int].slot(), self.next_id as int);
        }
        Ok(())
    }

    /// Flips the `is_favorite` flag of a row and stamps its update time.
    pub fn toggle_group_favorite(&mut self, id: i64) -> (r: Result<()>)
        requires
            old(self).wf(),
        ensures
            final(self).wf(),
            r is Ok <==> has_id(slots(old(self).groups@), id),
            r is Err ==> not_found(r, GROUPS_TABLE, id) && *final(self) == *old(self),
            r is Ok ==> {
                let i = index_of(slots(old(self).groups@), id);
                &&& final(self).only_groups_changed(old(self))
                &&& final(self).next_id == old(self).next_id
                &&& final(self).settings == old(self).settings
                &&& final(self).clock == old(self).clock
                &&& final(self).groups@ == old(self).groups@.update(i, Group {
                    is_favorite: !old(self).groups@[i].is_favorite,
                    updated_at: old(self).clock,
                    ..old(self).groups@[i]
                })
            },
    {
        let i = match find_row(&self.groups, id) {
            None => return Err(DatabaseError::NotFound { entity: GROUPS_TABLE, id }),
            Some(i) => i,
        };
        let now = self.stamp();
        let ghost before = self.groups@;
        let flipped = !self.groups[i].is_favorite;
        self.groups[i].is_favorite = flipped;
        self.groups[i].updated_at = now;
        proof {
            assert(self.groups@ == before.update(i as int, Group { is_favorite: flipped, updated_at: now, ..before[i as int] }));
            lemma_slots_update(before, i as int, self.groups@[i as int]);
            lemma_same_ids(slots(before), slots(self.groups@));
            lemma_refs_frame(*old(self), *self);
            lemma_table_replace(slots(before), i as int, self.groups@[i as int].slot(), self.next_id as int);
        }
        Ok(())
    }

    /// Flips the `is_favorite` flag of a row and stamps its update time.
    pub fn toggle_favorite_workflow(&mut self, id: i64) -> (r: Result<()>)
        requires
            old(self).wf(),
        ensures
            final(self).wf(),
            r is Ok <==> has_id(slots(old(self).workflows@), id),
            r is Err ==> not_found(r, WORKFLOWS_TABLE, id) && *final(self) == *old(self),
            r is Ok ==> {
                let i = index_of(slots(old(self).workflows@), id);
                &&& final(self).only_workflows_changed(old(self))
                &&& final(self).next_id == old(self).next_id
                &&& final(self).settings == old(self).settings
                &&& final(self).clock == old(self).clock
                &&& final(self).workflows@ == old(self).workflows@.update(i, Workflow {
                    is_favorite: !old(self).workflows@[i].is_favorite,
                    updated_at: old(self).clock,
                    ..old(self).workflows@[i]
                })
            },
    {
        let i = match find_row(&self.workflows, id) {
            None => return Err(DatabaseError::NotFound { entity: WORKFLOWS_TABLE, id }),
            Some(i) => i,
        };
        let now = self.stamp();
        let ghost before = self.workflows@;
        let flipped = !self.workflows[i].is_favorite;
        self.workflows[i].is_favorite = flipped;
        self.workflows[i].updated_at = now;
        proof {
            assert(self.workflows@ == before.update(i as int, Workflow { is_favorite: flipped, updated_at: now, ..before[i as int] }));
            lemma_slots_update(before, i as int, self.workflows@[i as int]);
            lemma_same_ids(slots(before), slots(self.workflows@));
            lemma_refs_frame(*old(self), *self);
            lemma_table_replace(slots(before), i as int, self.workflows@[i as int].slot(), self.next_id as int);
        }
        Ok(())
    }

    /// Flips the `enabled` flag of a row and stamps its update time.
    pub fn toggle_workflow_step_enabled(&mut self, id: i64) -> (r: Result<()>)
        requires
            old(self).wf(),
        ensures
            final(self).wf(),
            r is Ok <==> has_id(slots(old(self).steps@), id),
            r is Err ==> not_found(r, WORKFLOW_STEPS_TABLE, id) && *final(self) == *old(self),
            r is Ok ==> {
                let i = index_of(slots(old(self).steps@), id);
                &&& final(self).only_steps_changed(old(self))
                &&& final(self).next_id == old(self).next_id
                &&& final(self).settings == old(self).settings
                &&& final(self).clock == old(self).clock
                &&& final(self).steps@ == old(self).steps@.update(i, WorkflowStep {
                    enabled: !old(self).steps@[i].enabled,
                    updated_at: old(self).clock,
                    ..old(self).steps@[i]
                })
            },
    {
        let i = match find_row(&self.steps, id) {
            None => return Err(DatabaseError::NotFound { entity: WORKFLOW_STEPS_TABLE, id }),
            Some(i) => i,
        };
        let now = self.stamp();
        let ghost before = self.steps@;
        let flipped = !self.steps[i].enabled;
        self.steps[i].enabled = flipped;
        self.steps[i].updated_at = now;
        proof {
            assert(self.steps@ == before.update(i as int, WorkflowStep { enabled: flipped, updated_at: now, ..before[i as int] }));
            lemma_slots_update(before, i as int, self.steps@[i as int]);
            lemma_same_ids(slots(before), slots(self.steps@));
            lemma_refs_frame(*old(self), *self);
            lemma_table_replace(slots(before), i as int, self.steps@[i as int].slot(), self.next_id as int);
        }
        Ok(())
    }

    /// The category with the given id.
    pub fn get_category(&self, id: i64) -> (r: Result<Category>)
        requires
            self.wf(),
        ensures
            r is Ok <==> has_id(cat_slots(self.categories@), id),
            r is Err ==> not_found(r, CATEGORIES_TABLE, id),
            r matches Ok(c) ==> c == self.categories@[index_of(cat_slots(self.categories@), id)],
    {
        match self.category_row(id) {
            None => Err(DatabaseError::NotFound { entity: CATEGORIES_TABLE, id }),
            Some(i) => Ok(self.categories[i].duplicate()),
        }
    }

    /// Renames a category and replaces its icon and colour.
    pub fn update_category(&mut self, id: i64, name: &str, icon: Option<&str>, color: Option<&str>) -> (r:
        Result<()>)
        requires
            old(self).wf(),
        ensures
            final(self).wf(),
            ({
                let cs = cat_slots(old(self).categories@);
                let i = index_of(cs, id);
                &&& blank(name@) ==> invalid(r, "name")
                &&& !blank(name@) && !has_id(cs, id) ==> not_found(r, CATEGORIES_TABLE, id)
                &&& !blank(name@) && has_id(cs, id) && name_taken(old(self).categories@, name@, Some(id)) ==> internal(r)
                &&& r is Ok <==> !blank(name@) && has_id(cs, id) && !name_taken(old(self).categories@, name@, Some(id))
                &&& r is Err ==> *final(self) == *old(self)
                &&& r is Ok ==> {
                    &&& final(self).groups == old(self).groups
                    &&& final(self).commands == old(self).commands
                    &&& final(self).workflows == old(self).workflows
                    &&& final(self).steps == old(self).steps
                    &&& final(self).history == old(self).history
                    &&& final(self).next_id == old(self).next_id
                    &&& final(self).settings == old(self).settings
                    &&& final(self).clock == old(self).clock
                    &&& final(self).categories@.len() == old(self).categories@.len()
                    &&& forall|k: int| 0 <= k < cs.len() && k != i ==> final(self).categories@[k] == old(self).categories@[k]
                    &&& final(self).categories@[i].id == id
                    &&& final(self).categories@[i].name@ == name@
                    &&& text_view(final(self).categories@[i].icon) == str_view(icon)
                    &&& text_view(final(self).categories@[i].color) == str_view(color)
                    &&& final(self).categories@[i].created_at == old(self).categories@[i].created_at
                }
            }),
    {
        match validate_non_empty("name", name) {
            Err(e) => return Err(e),
            Ok(_) => {},
        }
        let i = match self.category_row(id) {
            None => return Err(DatabaseError::NotFound { entity: CATEGORIES_TABLE, id }),
            Some(i) => i,
        };
        if self.name_in_use(name, Some(id)) {
            return Err(
                DatabaseError::Internal(String::from_str("UNIQUE constraint failed: categories.name")),
            );
        }
        let row = Category {
            id,
            name: String::from_str(name),
            icon: owned_text(icon),
            color: owned_text(color),
            created_at: self.categories[i].created_at,
        };
        let ghost before = self.categories@;
        self.categories.set(i, row);
        proof {
            assert(cat_slots(self.categories@) =~= cat_slots(before));
        }
        Ok(())
    }
}

pub proof fn lemma_select_table(ss: Seq<Slot>, keep: Seq<bool>, next: int)
    requires
        keep.len() == ss.len(),
        table_ok(ss, next),
    ensures
        table_ok(select(ss, keep), next),
{
    lemma_select_wf(ss, keep);
    let t = select(ss, keep);
    assert forall|k: int| 0 <= k < t.len() implies 0 < #[trigger] t[k].id < next by {
        assert(ss.contains(t[k]));
        let m = choose|m: int| 0 <= m < ss.len() && ss[m] == t[k];
    }
}

pub open spec fn cat_slot(c: Category) -> Slot {
    Slot { id: c.id, parent: None, position: 0 }
}

pub open spec fn hist_slot(h: ExecutionHistory) -> Slot {
    Slot { id: h.id, parent: None, position: 0 }
}

pub proof fn lemma_select_positioned<T: Positioned>(rows: Seq<T>, keep: Seq<bool>, next: int)
    requires
        keep.len() == rows.len(),
        table_ok(slots(rows), next),
    ensures
        table_ok(slots(select(rows, keep)), next),
{
    lemma_select_slots(rows, keep);
    lemma_select_table(slots(rows), keep, next);
}

pub proof fn lemma_select_history(rows: Seq<ExecutionHistory>, keep: Seq<bool>, next: int)
    requires
        keep.len() == rows.len(),
        table_ok(hist_slots(rows), next),
    ensures
        table_ok(hist_slots(select(rows, keep)), next),
{
    let f = |h: ExecutionHistory| hist_slot(h);
    lemma_select_map(rows, keep, f);
    assert(hist_slots(rows) =~= Seq::new(rows.len(), |i: int| f(rows[i])));
    assert(hist_slots(select(rows, keep)) =~= Seq::new(select(rows, keep).len(), |i: int| f(select(rows, keep)[i])));
    assert(hist_slots(select(rows, keep)) == select(hist_slots(rows), keep));
    lemma_select_table(hist_slots(rows), keep, next);
}

pub proof fn lemma_select_categories(rows: Seq<Category>, keep: Seq<bool>, next: int)
    requires
        keep.len() == rows.len(),
        table_ok(cat_slots(rows), next),
    ensures
        table_ok(cat_slots(select(rows, keep)), next),
{
    let f = |c: Category| cat_slot(c);
    lemma_select_map(rows, keep, f);
    assert(cat_slots(rows) =~= Seq::new(rows.len(), |i: int| f(rows[i])));
    assert(cat_slots(select(rows, keep)) =~= Seq::new(select(rows, keep).len(), |i: int| f(select(rows, keep)[i])));
    assert(cat_slots(select(rows, keep)) == select(cat_slots(rows), keep));
    lemma_select_table(cat_slots(rows), keep, next);
}

/// The groups that are neither `root` nor one of its descendants.
pub open spec fn outside_subtree(gs: Seq<Slot>, root: i64) -> spec_fn(Group) -> bool {
    |g: Group| !descends(gs, g.id, root)
}

/// The parent of a group that stays, stays too.
pub proof fn lemma_subtree_closed(groups: Seq<Group>, root: i64)
    requires
        unique_ids(slots(groups)),
        forall|i: int| 0 <= i < groups.len() ==> opt_exists(slots(groups), (#[trigger] groups[i]).parent_group_id),
    ensures
        ({
            let kept = keep_where(groups, outside_subtree(slots(groups), root));
            forall|i: int| 0 <= i < kept.len() ==> opt_exists(slots(kept), (#[trigger] kept[i]).parent_group_id)
        }),
{
    let gs = slots(groups);
    let p = outside_subtree(gs, root);
    let kept = keep_where(groups, p);
    lemma_keep_where(groups, p);
    assert forall|i: int| 0 <= i < kept.len() implies opt_exists(slots(kept), (#[trigger] kept[i]).parent_group_id) by {
        let x = kept[i];
        assert(kept.contains(x));
        let j = choose|j: int| 0 <= j < groups.len() && groups[j] == x;
        assert(p(x));
        lemma_index_of(gs, j);
        assert(gs[j].id == x.id);
        if x.parent_group_id is Some {
            let q = x.parent_group_id.unwrap();
            assert(opt_exists(gs, x.parent_group_id));
            assert(has_id(gs, q));
            if descends(gs, q, root) {
                assert(x.id != root);
                assert(reach(gs, x.id, root, (gs.len() + 1) as nat));
                lemma_reach_within(gs, x.id, root, (gs.len() + 1) as nat);
                assert(false);
            }
            let m = index_of(gs, q);
            assert(groups[m].id == q);
            assert(p(groups[m]));
            assert(kept.contains(groups[m]));
            let t = choose|t: int| 0 <= t < kept.len() && kept[t] == groups[m];
            assert(slots(kept)[t].id == q);
        }
    }
}

/// The commands in no group or in one of `groups`.
pub open spec fn in_groups(groups: Seq<Group>) -> spec_fn(Command) -> bool {
    |c: Command| opt_exists(slots(groups), c.group_id)
}

/// A command stays while its group (if any) exists.
pub open spec fn command_kept(db: Database) -> spec_fn(Command) -> bool {
    in_groups(db.groups@)
}

/// A step stays while its workflow and its command exist.
pub open spec fn step_kept(db: Database) -> spec_fn(WorkflowStep) -> bool {
    |s: WorkflowStep| has_id(slots(db.workflows@), s.workflow_id) && has_id(slots(db.commands@), s.command_id)
}

/// A history record stays while every row it names exists.
pub open spec fn history_kept(db: Database) -> spec_fn(ExecutionHistory) -> bool {
    |h: ExecutionHistory|
        opt_exists(slots(db.commands@), h.command_id) && opt_exists(slots(db.workflows@), h.workflow_id)
            && opt_exists(slots(db.steps@), h.workflow_step_id)
}

impl Database {
    fn purge_commands(&mut self)
        requires
            old(self).tables_ok(),
        ensures
            final(self).tables_ok(),
            *final(self) == (Database {
                commands: final(self).commands,
                ..*old(self)
            }),
            final(self).commands@ == keep_where(old(self).commands@, command_kept(*old(self))),
            (forall|i: int| 0 <= i < old(self).commands@.len() ==> opt_exists(cat_slots(old(self).categories@), (#[trigger] old(self).commands@[i]).category_id))
                ==> command_refs(final(self).commands@, slots(final(self).groups@), cat_slots(final(self).categories@)),
    {
        let mut keep: Vec<bool> = Vec::new();
        let mut i: usize = 0;
        while i < self.commands.len()
            invariant
                self.tables_ok(),
                i <= self.commands@.len(),
                keep@.len() == i,
                forall|k: int| 0 <= k < i ==> keep@[k] == command_kept(*self)(self.commands@[k]),
            decreases self.commands@.len() - i,
        {
            keep.push(self.group_exists(self.commands[i].group_id));
            i = i + 1;
        }
        let ghost before = *self;
        assert(keep@ =~= Seq::new(self.commands@.len(), |k: int| command_kept(before)(before.commands@[k])));
        retain_flagged(&mut self.commands, &keep);
        proof {
            lemma_select_positioned(before.commands@, keep@, self.next_id as int);
            lemma_keep_sat(before.commands@, command_kept(before));
            let q = |c: Command| opt_exists(cat_slots(before.categories@), c.category_id);
            if forall|i: int| 0 <= i < before.commands@.len() ==> opt_exists(cat_slots(before.categories@), (#[trigger] before.commands@[i]).category_id) {
                lemma_keep_all(before.commands@, command_kept(before), q);
            }
        }
    }

    fn purge_steps(&mut self)
        requires
            old(self).tables_ok(),
        ensures
            final(self).tables_ok(),
            *final(self) == (Database {
                steps: final(self).steps,
                ..*old(self)
            }),
            final(self).steps@ == keep_where(old(self).steps@, step_kept(*old(self))),
            step_refs(final(self).steps@, slots(final(self).workflows@), slots(final(self).commands@)),
    {
        let mut keep: Vec<bool> = Vec::new();
        let mut i: usize = 0;
        while i < self.steps.len()
            invariant
                self.tables_ok(),
                i <= self.steps@.len(),
                keep@.len() == i,
                forall|k: int| 0 <= k < i ==> keep@[k] == step_kept(*self)(self.steps@[k]),
            decreases self.steps@.len() - i,
        {
            let s = &self.steps[i];
            keep.push(find_row(&self.workflows, s.workflow_id).is_some() && find_row(&self.commands, s.command_id).is_some());
            i = i + 1;
        }
        let ghost before = *self;
        assert(keep@ =~= Seq::new(self.steps@.len(), |k: int| step_kept(before)(before.steps@[k])));
        retain_flagged(&mut self.steps, &keep);
        proof {
            lemma_select_positioned(before.steps@, keep@, self.next_id as int);
            lemma_keep_sat(before.steps@, step_kept(before));
        }
    }

    fn purge_history(&mut self)
        requires
            old(self).tables_ok(),
        ensures
            final(self).tables_ok(),
            *final(self) == (Database {
                history: final(self).history,
                ..*old(self)
            }),
            final(self).history@ == keep_where(old(self).history@, history_kept(*old(self))),
            history_refs(final(self).history@, slots(final(self).commands@), slots(final(self).workflows@), slots(final(self).steps@)),
    {
        let mut keep: Vec<bool> = Vec::new();
        let mut i: usize = 0;
        while i < self.history.len()
            invariant
                self.tables_ok(),
                i <= self.history@.len(),
                keep@.len() == i,
                forall|k: int| 0 <= k < i ==> keep@[k] == history_kept(*self)(self.history@[k]),
            decreases self.history@.len() - i,
        {
            let h = &self.history[i];
            let c = match h.command_id {
                None => true,
                Some(x) => find_row(&self.commands, x).is_some(),
            };
            let w = match h.workflow_id {
                None => true,
                Some(x) => find_row(&self.workflows, x).is_some(),
            };
            let st = match h.workflow_step_id {
                None => true,
                Some(x) => find_row(&self.steps, x).is_some(),
            };
            keep.push(c && w && st);
            i = i + 1;
        }
        let ghost before = *self;
        assert(keep@ =~= Seq::new(self.history@.len(), |k: int| history_kept(before)(before.history@[k])));
        retain_flagged(&mut self.history, &keep);
        proof {
            lemma_select_history(before.history@, keep@, self.next_id as int);
            lemma_keep_sat(before.history@, history_kept(before));
        }
    }
}

/// Removes the row with the given id.
fn drop_id<T: Positioned>(rows: &mut Vec<T>, id: i64)
    ensures
        final(rows)@ == keep_where(old(rows)@, |x: T| x.slot().id != id),
        forall|next: int| table_ok(slots(old(rows)@), next) ==> table_ok(slots(final(rows)@), next),
{
    let mut keep: Vec<bool> = Vec::new();
    let mut i: usize = 0;
    while i < rows.len()
        invariant
            i <= rows@.len(),
            keep@.len() == i,
            forall|k: int| 0 <= k < i ==> keep@[k] == (rows@[k].slot().id != id),
        decreases rows@.len() - i,
    {
        keep.push(rows[i].id() != id);
        i = i + 1;
    }
    let ghost before = rows@;
    assert(keep@ =~= Seq::new(before.len(), |k: int| (|x: T| x.slot().id != id)(before[k])));
    retain_flagged(rows, &keep);
    assert forall|next: int| table_ok(slots(before), next) implies table_ok(slots(rows@), next) by {
        lemma_select_positioned(before, keep@, next);
    }
}

impl Database {
    /// Deletes a command, the steps that run it, and the history records
    /// that name a row no longer there.
    pub fn delete_command(&mut self, id: i64) -> (r: Result<()>)
        requires
            old(self).wf(),
        ensures
            final(self).wf(),
            r is Ok <==> has_id(slots(old(self).commands@), id),
            r is Err ==> not_found(r, COMMANDS_TABLE, id) && *final(self) == *old(self),
            r is Ok ==> {
                &&& final(self).commands@ == keep_where(old(self).commands@, |c: Command| c.id != id)
                &&& final(self).steps@ == keep_where(old(self).steps@, step_kept(*final(self)))
                &&& final(self).history@ == keep_where(old(self).history@, history_kept(*final(self)))
                &&& final(self).categories == old(self).categories
                &&& final(self).groups == old(self).groups
                &&& final(self).workflows == old(self).workflows
                &&& final(self).next_id == old(self).next_id
                &&& final(self).settings == old(self).settings
                &&& final(self).clock == old(self).clock
            },
    {
        if find_row(&self.commands, id).is_none() {
            return Err(DatabaseError::NotFound { entity: COMMANDS_TABLE, id });
        }
        let ghost before = self.commands@;
        drop_id(&mut self.commands, id);
        proof {
            assert(keep_where(before, |x: Command| x.slot().id != id) == keep_where(before, |c: Command| c.id != id)) by {
                assert((|x: Command| x.slot().id != id) =~= (|c: Command| c.id != id));
            }
        }
        self.purge_steps();
        let ghost mid = *self;
        self.purge_history();
        proof {
            assert(step_kept(mid) =~= step_kept(*self));
            lemma_keep_all(before, |c: Command| c.id != id, |c: Command| opt_exists(slots(old(self).groups@), c.group_id)
                && opt_exists(cat_slots(old(self).categories@), c.category_id));
        }
        Ok(())
    }

    /// Deletes a workflow, its steps, and the history records that name a
    /// row no longer there.
    pub fn delete_workflow(&mut self, id: i64) -> (r: Result<()>)
        requires
            old(self).wf(),
        ensures
            final(self).wf(),
            r is Ok <==> has_id(slots(old(self).workflows@), id),
            r is Err ==> not_found(r, WORKFLOWS_TABLE, id) && *final(self) == *old(self),
            r is Ok ==> {
                &&& final(self).workflows@ == keep_where(old(self).workflows@, |w: Workflow| w.id != id)
                &&& final(self).steps@ == keep_where(old(self).steps@, step_kept(*final(self)))
                &&& final(self).history@ == keep_where(old(self).history@, history_kept(*final(self)))
                &&& final(self).categories == old(self).categories
                &&& final(self).groups == old(self).groups
                &&& final(self).commands == old(self).commands
                &&& final(self).next_id == old(self).next_id
                &&& final(self).settings == old(self).settings
                &&& final(self).clock == old(self).clock
            },
    {
        if find_row(&self.workflows, id).is_none() {
            return Err(DatabaseError::NotFound { entity: WORKFLOWS_TABLE, id });
        }
        let ghost before = self.workflows@;
        drop_id(&mut self.workflows, id);
        proof {
            assert((|x: Workflow| x.slot().id != id) =~= (|w: Workflow| w.id != id));
        }
        self.purge_steps();
        let ghost mid = *self;
        self.purge_history();
        proof {
            assert(step_kept(mid) =~= step_kept(*self));
            lemma_keep_all(before, |w: Workflow| w.id != id, |w: Workflow| opt_exists(cat_slots(old(self).categories@), w.category_id));
        }
        Ok(())
    }

    /// Deletes a workflow step and the history records that name it.
    pub fn delete_workflow_step(&mut self, id: i64) -> (r: Result<()>)
        requires
            old(self).wf(),
        ensures
            final(self).wf(),
            r is Ok <==> has_id(slots(old(self).steps@), id),
            r is Err ==> not_found(r, WORKFLOW_STEPS_TABLE, id) && *final(self) == *old(self),
            r is Ok ==> {
                &&& final(self).steps@ == keep_where(old(self).steps@, |s: WorkflowStep| s.id != id)
                &&& final(self).history@ == keep_where(old(self).history@, history_kept(*final(self)))
                &&& final(self).categories == old(self).categories
                &&& final(self).groups == old(self).groups
                &&& final(self).commands == old(self).commands
                &&& final(self).workflows == old(self).workflows
                &&& final(self).next_id == old(self).next_id
                &&& final(self).settings == old(self).settings
                &&& final(self).clock == old(self).clock
            },
    {
        if find_row(&self.steps, id).is_none() {
            return Err(DatabaseError::NotFound { entity: WORKFLOW_STEPS_TABLE, id });
        }
        let ghost before = self.steps@;
        drop_id(&mut self.steps, id);
        proof {
            assert((|x: WorkflowStep| x.slot().id != id) =~= (|s: WorkflowStep| s.id != id));
            lemma_keep_all(before, |s: WorkflowStep| s.id != id, |s: WorkflowStep| has_id(slots(old(self).workflows@), s.workflow_id)
                && has_id(slots(old(self).commands@), s.command_id));
        }
        self.purge_history();
        Ok(())
    }

    /// Deletes a group with all its descendant groups, the commands in any
    /// of them, the steps that run those commands, and the history records
    /// that name a row no longer there.
    pub fn delete_group(&mut self, id: i64) -> (r: Result<()>)
        requires
            old(self).wf(),
        ensures
            final(self).wf(),
            r is Ok <==> has_id(slots(old(self).groups@), id),
            r is Err ==> not_found(r, GROUPS_TABLE, id) && *final(self) == *old(self),
            r is Ok ==> {
                &&& final(self).groups@ == keep_where(old(self).groups@, outside_subtree(slots(old(self).groups@), id))
                &&& final(self).commands@ == keep_where(old(self).commands@, in_groups(final(self).groups@))
                &&& final(self).steps@ == keep_where(old(self).steps@, step_kept(*final(self)))
                &&& final(self).history@ == keep_where(old(self).history@, history_kept(*final(self)))
                &&& final(self).categories == old(self).categories
                &&& final(self).workflows == old(self).workflows
                &&& final(self).next_id == old(self).next_id
                &&& final(self).settings == old(self).settings
                &&& final(self).clock == old(self).clock
            },
    {
        if find_row(&self.groups, id).is_none() {
            return Err(DatabaseError::NotFound { entity: GROUPS_TABLE, id });
        }
        let ghost gs = slots(self.groups@);
        let ghost before = self.groups@;
        let doomed = mark_descendants(&self.groups, id);
        let mut keep: Vec<bool> = Vec::new();
        let mut i: usize = 0;
        while i < doomed.len()
            invariant
                i <= doomed@.len(),
                doomed@.len() == before.len(),
                keep@.len() == i,
                forall|k: int| 0 <= k < i ==> keep@[k] == !doomed@[k],
            decreases doomed@.len() - i,
        {
            keep.push(!doomed[i]);
            i = i + 1;
        }
        assert(keep@ =~= Seq::new(before.len(), |k: int| outside_subtree(gs, id)(before[k])));
        retain_flagged(&mut self.groups, &keep);
        proof {
            lemma_select_positioned(before, keep@, self.next_id as int);
            lemma_subtree_closed(before, id);
            lemma_keep_all(before, outside_subtree(gs, id), |g: Group| opt_exists(cat_slots(old(self).categories@), g.category_id));
        }
        self.purge_commands();
        let ghost after_commands = *self;
        self.purge_steps();
        let ghost after_steps = *self;
        self.purge_history();
        proof {
            assert(command_kept(after_commands) =~= command_kept(*self));
            assert(step_kept(after_steps) =~= step_kept(*self));
        }
        Ok(())
    }

    /// Deletes a category; groups, commands and workflows that named it
    /// keep existing with no category.
    pub fn delete_category(&mut self, id: i64) -> (r: Result<()>)
        requires
            old(self).wf(),
        ensures
            final(self).wf(),
            r is Ok <==> has_id(cat_slots(old(self).categories@), id),
            r is Err ==> not_found(r, CATEGORIES_TABLE, id) && *final(self) == *old(self),
            r is Ok ==> {
                &&& final(self).categories@ == keep_where(old(self).categories@, |c: Category| c.id != id)
                &&& final(self).groups@.len() == old(self).groups@.len()
                &&& forall|k: int| 0 <= k < old(self).groups@.len() ==> #[trigger] final(self).groups@[k]
                    == (if old(self).groups@[k].category_id == Some(id) {
                    Group { category_id: None, ..old(self).groups@[k] }
                } else {
                    old(self).groups@[k]
                })
                &&& final(self).commands@.len() == old(self).commands@.len()
                &&& forall|k: int| 0 <= k < old(self).commands@.len() ==> #[trigger] final(self).commands@[k]
                    == (if old(self).commands@[k].category_id == Some(id) {
                    Command { category_id: None, ..old(self).commands@[k] }
                } else {
                    old(self).commands@[k]
                })
                &&& final(self).workflows@.len() == old(self).workflows@.len()
                &&& forall|k: int| 0 <= k < old(self).workflows@.len() ==> #[trigger] final(self).workflows@[k]
                    == (if old(self).workflows@[k].category_id == Some(id) {
                    Workflow { category_id: None, ..old(self).workflows@[k] }
                } else {
                    old(self).workflows@[k]
                })
                &&& final(self).steps == old(self).steps
                &&& final(self).history == old(self).history
                &&& final(self).next_id == old(self).next_id
                &&& final(self).settings == old(self).settings
                &&& final(self).clock == old(self).clock
            },
    {
        if self.category_row(id).is_none() {
            return Err(DatabaseError::NotFound { entity: CATEGORIES_TABLE, id });
        }
        let ghost cats = self.categories@;
        let mut keep: Vec<bool> = Vec::new();
        let mut i: usize = 0;
        while i < self.categories.len()
            invariant
                i <= self.categories@.len(),
                cats == self.categories@,
                keep@.len() == i,
                forall|k: int| 0 <= k < i ==> keep@[k] == (cats[k].id != id),
            decreases self.categories@.len() - i,
        {
            keep.push(self.categories[i].id != id);
            i = i + 1;
        }
        assert(keep@ =~= Seq::new(cats.len(), |k: int| (|c: Category| c.id != id)(cats[k])));
        retain_flagged(&mut self.categories, &keep);
        proof {
            lemma_select_categories(cats, keep@, self.next_id as int);
        }
        let ghost g0 = self.groups@;
        let ghost snap = *self;
        let mut k: usize = 0;
        while k < self.groups.len()
            invariant
                self.categories == snap.categories && self.commands == snap.commands && self.workflows
                    == snap.workflows && self.steps == snap.steps && self.history == snap.history && self.settings == snap.settings
                    && self.next_id == snap.next_id && self.clock == snap.clock,
                k <= self.groups@.len(),
                self.groups@.len() == g0.len(),
                forall|m: int| 0 <= m < k ==> #[trigger] self.groups@[m] == (if g0[m].category_id == Some(id) {
                    Group { category_id: None, ..g0[m] }
                } else {
                    g0[m]
                }),
                forall|m: int| k <= m < g0.len() ==> #[trigger] self.groups@[m] == g0[m],
            decreases self.groups@.len() - k,
        {
            if self.groups[k].category_id == Some(id) {
                self.groups[k].category_id = None;
            }
            k = k + 1;
        }
        assert(slots(self.groups@) =~= slots(g0));
        let ghost c0 = self.commands@;
        let ghost snap = *self;
        let mut k: usize = 0;
        while k < self.commands.len()
            invariant
                self.categories == snap.categories && self.groups == snap.groups && self.workflows
                    == snap.workflows && self.steps == snap.steps && self.history == snap.history && self.settings == snap.settings
                    && self.next_id == snap.next_id && self.clock == snap.clock,
                k <= self.commands@.len(),
                self.commands@.len() == c0.len(),
                forall|m: int| 0 <= m < k ==> #[trigger] self.commands@[m] == (if c0[m].category_id == Some(id) {
                    Command { category_id: None, ..c0[m] }
                } else {
                    c0[m]
                }),
                forall|m: int| k <= m < c0.len() ==> #[trigger] self.commands@[m] == c0[m],
            decreases self.commands@.len() - k,
        {
            if self.commands[k].category_id == Some(id) {
                self.commands[k].category_id = None;
            }
            k = k + 1;
        }
        assert(slots(self.commands@) =~= slots(c0));
        let ghost w0 = self.workflows@;
        let ghost snap = *self;
        let mut k: usize = 0;
        while k < self.workflows.len()
            invariant
                self.categories == snap.categories && self.groups == snap.groups && self.commands
                    == snap.commands && self.steps == snap.steps && self.history == snap.history && self.settings == snap.settings
                    && self.next_id == snap.next_id && self.clock == snap.clock,
                k <= self.workflows@.len(),
                self.workflows@.len() == w0.len(),
                forall|m: int| 0 <= m < k ==> #[trigger] self.workflows@[m] == (if w0[m].category_id == Some(id) {
                    Workflow { category_id: None, ..w0[m] }
                } else {
                    w0[m]
                }),
                forall|m: int| k <= m < w0.len() ==> #[trigger] self.workflows@[m] == w0[m],
            decreases self.workflows@.len() - k,
        {
            if self.workflows[k].category_id == Some(id) {
                self.workflows[k].category_id = None;
            }
            k = k + 1;
        }
        proof {
            assert(slots(self.workflows@) =~= slots(w0));
            let nc = cat_slots(self.categories@);
            assert forall|c: i64| has_id(cat_slots(cats), c) && c != id implies #[trigger] has_id(nc, c) by {
                lemma_kept_category(cats, id, c);
            }
            assert forall|k: int| 0 <= k < self.groups@.len() implies opt_exists(nc, (#[trigger] self.groups@[k]).category_id) by {
                assert(opt_exists(cat_slots(cats), g0[k].category_id));
            }
            assert forall|k: int| 0 <= k < self.commands@.len() implies opt_exists(nc, (#[trigger] self.commands@[k]).category_id) by {
                assert(opt_exists(cat_slots(cats), c0[k].category_id));
            }
            assert forall|k: int| 0 <= k < self.workflows@.len() implies opt_exists(nc, (#[trigger] self.workflows@[k]).category_id) by {
                assert(opt_exists(cat_slots(cats), w0[k].category_id));
            }
        }
        Ok(())
    }
}

fn slots_of<T: Positioned>(rows: &Vec<T>) -> (r: Vec<Slot>)
    ensures
        r@ == slots(rows@),
{
    let mut out: Vec<Slot> = Vec::new();
    let mut i: usize = 0;
    while i < rows.len()
        invariant
            i <= rows@.len(),
            out@ == slots(rows@).subrange(0, i as int),
        decreases rows@.len() - i,
    {
        let r = &rows[i];
        out.push(Slot { id: r.id(), parent: r.parent(), position: r.position() });
        i = i + 1;
        assert(out@ =~= slots(rows@).subrange(0, i as int));
    }
    assert(out@ =~= slots(rows@));
    out
}

fn check_table(ss: &Vec<Slot>, next: i64) -> (r: bool)
    ensures
        r == table_ok(ss@, next as int),
{
    let n = ss.len();
    if n as i64 >= next || n as u64 >= ID_LIMIT as u64 {
        return false;
    }
    let mut i: usize = 0;
    while i < n
        invariant
            n == ss@.len(),
            (n as int) < next,
            i <= n,
            forall|k: int| 0 <= k < i ==> 0 < (#[trigger] ss@[k]).id < next && 0 <= ss@[k].position <= POSITION_LIMIT,
            forall|k: int, l: int| 0 <= k < i && 0 <= l < n && k != l ==> (#[trigger] ss@[k]).id != (#[trigger] ss@[l]).id,
        decreases n - i,
    {
        let s = ss[i];
        if !(0 < s.id && s.id < next && 0 <= s.position && s.position <= POSITION_LIMIT) {
            return false;
        }
        let mut j: usize = 0;
        while j < n
            invariant
                n == ss@.len(),
                i < n,
                j <= n,
                s == ss@[i as int],
                forall|l: int| 0 <= l < j && l != i ==> ss@[l].id != s.id,
            decreases n - j,
        {
            if j != i && ss[j].id == s.id {
                return false;
            }
            j = j + 1;
        }
        i = i + 1;
    }
    true
}

fn cat_slots_of(rows: &Vec<Category>) -> (r: Vec<Slot>)
    ensures
        r@ == cat_slots(rows@),
{
    let mut out: Vec<Slot> = Vec::new();
    let mut i: usize = 0;
    while i < rows.len()
        invariant
            i <= rows@.len(),
            out@ == cat_slots(rows@).subrange(0, i as int),
        decreases rows@.len() - i,
    {
        out.push(Slot { id: rows[i].id, parent: None, position: 0 });
        i = i + 1;
        assert(out@ =~= cat_slots(rows@).subrange(0, i as int));
    }
    assert(out@ =~= cat_slots(rows@));
    out
}

fn hist_slots_of(rows: &Vec<ExecutionHistory>) -> (r: Vec<Slot>)
    ensures
        r@ == hist_slots(rows@),
{
    let mut out: Vec<Slot> = Vec::new();
    let mut i: usize = 0;
    while i < rows.len()
        invariant
            i <= rows@.len(),
            out@ == hist_slots(rows@).subrange(0, i as int),
        decreases rows@.len() - i,
    {
        out.push(Slot { id: rows[i].id, parent: None, position: 0 });
        i = i + 1;
        assert(out@ =~= hist_slots(rows@).subrange(0, i as int));
    }
    assert(out@ =~= hist_slots(rows@));
    out
}

impl Database {
    /// Tests `wf`: for a store assembled from outside data (such as rows
    /// read back from a file) before any method is called on it.
    pub fn is_well_formed(&self) -> (r: bool)
        ensures
            r == self.wf(),
    {
        if !(0 < self.next_id && self.next_id < ID_LIMIT) {
            return false;
        }
        let tables = check_table(&cat_slots_of(&self.categories), self.next_id) && check_table(&slots_of(&self.groups), self.next_id)
            && check_table(&slots_of(&self.commands), self.next_id) && check_table(&slots_of(&self.workflows), self.next_id)
            && check_table(&slots_of(&self.steps), self.next_id) && check_table(&hist_slots_of(&self.history), self.next_id);
        tables && self.refs_hold()
    }

    fn refs_hold(&self) -> (r: bool)
        requires
            self.tables_ok(),
        ensures
            r == self.refs_ok(),
    {
        let mut i: usize = 0;
        while i < self.groups.len()
            invariant
                self.tables_ok(),
                i <= self.groups@.len(),
                forall|k: int| 0 <= k < i ==> opt_exists(slots(self.groups@), (#[trigger] self.groups@[k]).parent_group_id)
                    && opt_exists(cat_slots(self.categories@), self.groups@[k].category_id),
            decreases self.groups@.len() - i,
        {
            let g = &self.groups[i];
            if !(self.group_exists(g.parent_group_id) && self.category_exists(g.category_id)) {
                return false;
            }
            i = i + 1;
        }
        let mut i: usize = 0;
        while i < self.commands.len()
            invariant
                self.tables_ok(),
                group_refs(self.groups@, slots(self.groups@), cat_slots(self.categories@)),
                i <= self.commands@.len(),
                forall|k: int| 0 <= k < i ==> opt_exists(slots(self.groups@), (#[trigger] self.commands@[k]).group_id)
                    && opt_exists(cat_slots(self.categories@), self.commands@[k].category_id),
            decreases self.commands@.len() - i,
        {
            let c = &self.commands[i];
            if !(self.group_exists(c.group_id) && self.category_exists(c.category_id)) {
                return false;
            }
            i = i + 1;
        }
        let mut i: usize = 0;
        while i < self.workflows.len()
            invariant
                self.tables_ok(),
                group_refs(self.groups@, slots(self.groups@), cat_slots(self.categories@)),
                command_refs(self.commands@, slots(self.groups@), cat_slots(self.categories@)),
                i <= self.workflows@.len(),
                forall|k: int| 0 <= k < i ==> opt_exists(cat_slots(self.categories@), (#[trigger] self.workflows@[k]).category_id),
            decreases self.workflows@.len() - i,
        {
            if !self.category_exists(self.workflows[i].category_id) {
                return false;
            }
            i = i + 1;
        }
        let mut i: usize = 0;
        while i < self.steps.len()
            invariant
                self.tables_ok(),
                group_refs(self.groups@, slots(self.groups@), cat_slots(self.categories@)),
                command_refs(self.commands@, slots(self.groups@), cat_slots(self.categories@)),
                workflow_refs(self.workflows@, cat_slots(self.categories@)),
                i <= self.steps@.len(),
                forall|k: int| 0 <= k < i ==> has_id(slots(self.workflows@), (#[trigger] self.steps@[k]).workflow_id)
                    && has_id(slots(self.commands@), self.steps@[k].command_id),
            decreases self.steps@.len() - i,
        {
            let st = &self.steps[i];
            if !(find_row(&self.workflows, st.workflow_id).is_some() && find_row(&self.commands, st.command_id).is_some()) {
                return false;
            }
            i = i + 1;
        }
        let mut i: usize = 0;
        while i < self.history.len()
            invariant
                self.tables_ok(),
                group_refs(self.groups@, slots(self.groups@), cat_slots(self.categories@)),
                command_refs(self.commands@, slots(self.groups@), cat_slots(self.categories@)),
                workflow_refs(self.workflows@, cat_slots(self.categories@)),
                step_refs(self.steps@, slots(self.workflows@), slots(self.commands@)),
                i <= self.history@.len(),
                forall|k: int| 0 <= k < i ==> opt_exists(slots(self.commands@), (#[trigger] self.history@[k]).command_id)
                    && opt_exists(slots(self.workflows@), self.history@[k].workflow_id)
                    && opt_exists(slots(self.steps@), self.history@[k].workflow_step_id),
            decreases self.history@.len() - i,
        {
            let h = &self.history[i];
            let c = match h.command_id {
                None => true,
                Some(x) => find_row(&self.commands, x).is_some(),
            };
            let w = match h.workflow_id {
                None => true,
                Some(x) => find_row(&self.workflows, x).is_some(),
            };
            let st = match h.workflow_step_id {
                None => true,
                Some(x) => find_row(&self.steps, x).is_some(),
            };
            if !(c && w && st) {
                return false;
            }
            i = i + 1;
        }
        true
    }
}
} // verus!
