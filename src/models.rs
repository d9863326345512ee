//! The records the store keeps, and the text codecs of their enumerations.
use vstd::prelude::*;
use crate::position::{Positioned, Slot};

verus! {

/// Environment variables as (key, value) pairs, keys unique.
pub type EnvVars = Vec<(String, String)>;

#[derive(Debug, Clone)]
pub struct Category {
    pub id: i64,
    pub name: String,
    pub icon: Option<String>,
    pub color: Option<String>,
    pub created_at: u64,
}

#[derive(Debug, Clone)]
pub struct Group {
    pub id: i64,
    pub name: String,
    pub description: Option<String>,
    pub parent_group_id: Option<i64>,
    pub position: i64,
    pub working_directory: Option<String>,
    pub env_vars: Option<EnvVars>,
    pub shell: Option<String>,
    pub category_id: Option<i64>,
    pub is_favorite: bool,
    pub icon: Option<String>,
    pub created_at: u64,
    pub updated_at: u64,
}

#[derive(Debug, Clone)]
pub struct Command {
    pub id: i64,
    pub name: String,
    pub command: String,
    pub arguments: Vec<String>,
    pub description: Option<String>,
    pub group_id: Option<i64>,
    pub position: i64,
    pub working_directory: Option<String>,
    pub env_vars: Option<EnvVars>,
    pub shell: Option<String>,
    pub category_id: Option<i64>,
    pub is_favorite: bool,
    pub created_at: u64,
    pub updated_at: u64,
}

#[derive(Debug, Clone)]
pub struct Template {
    pub id: i64,
    pub name: String,
    pub description: Option<String>,
    pub author: Option<String>,
    pub structure: String,
    pub created_at: u64,
    pub updated_at: u64,
}

#[derive(Debug, Clone)]
pub struct Workflow {
    pub id: i64,
    pub name: String,
    pub description: Option<String>,
    pub category_id: Option<i64>,
    pub is_favorite: bool,
    pub execution_mode: ExecutionMode,
    pub position: i64,
    pub created_at: u64,
    pub updated_at: u64,
}

#[derive(Debug, Clone, Copy, PartialEq, Eq, Structural)]
pub enum ExecutionMode {
    Sequential,
    Parallel,
    Conditional,
}

#[derive(Debug, Clone, Copy, PartialEq, Eq, Structural)]
pub enum StepCondition {
    Always,
    OnSuccess,
    OnFailure,
}

#[derive(Debug, Clone)]
pub struct WorkflowStep {
    pub id: i64,
    pub workflow_id: i64,
    pub command_id: i64,
    pub position: i64,
    pub condition: StepCondition,
    pub timeout_seconds: Option<u32>,
    pub auto_retry_count: Option<u8>,
    pub enabled: bool,
    pub continue_on_failure: bool,
    pub created_at: u64,
    pub updated_at: u64,
}

#[derive(Debug, Clone)]
pub struct ExecutionHistory {
    pub id: i64,
    pub command_id: Option<i64>,
    pub workflow_id: Option<i64>,
    pub workflow_step_id: Option<i64>,
    pub pid: Option<i64>,
    pub status: Status,
    pub exit_code: Option<i32>,
    pub started_at: u64,
    pub completed_at: Option<u64>,
    pub triggered_by: TriggeredBy,
    /// Free-form extra metadata, such as a workflow context.
    pub context: Option<String>,
}

#[derive(Debug, Clone, Copy, PartialEq, Eq, Structural)]
pub enum TriggeredBy {
    Manual,
    Workflow,
    Schedule,
}

#[derive(Debug, Clone, Copy, PartialEq, Eq, Structural)]
pub enum Status {
    Idle,
    Running,
    Success,
    Interrupted,
    Paused,
    Failed,
    TimedOut,
    Cancelled,
    Skipped,
    Completed,
}

impl Default for Status {
    fn default() -> (r: Status)
        ensures
            r == Status::Running,
    {
        Status::Running
    }
}

} // verus!

verus! {

pub fn copy_text(s: &Option<String>) -> (r: Option<String>)
    ensures
        r == *s,
{
    match s {
        Some(t) => Some(t.clone()),
        None => None,
    }
}

pub fn copy_strings(v: &Vec<String>) -> (r: Vec<String>)
    ensures
        r@ == v@,
{
    let mut out: Vec<String> = Vec::new();
    let mut i: usize = 0;
    while i < v.len()
        invariant
            i <= v@.len(),
            out@ == v@.subrange(0, i as int),
        decreases v@.len() - i,
    {
        out.push(v[i].clone());
        i = i + 1;
        assert(out@ =~= v@.subrange(0, i as int));
    }
    assert(out@ =~= v@);
    out
}

pub fn copy_env(e: &Option<EnvVars>) -> (r: Option<EnvVars>)
    ensures
        env_view(r) == env_view(*e),
{
    match e {
        None => None,
        Some(v) => {
            let mut out: EnvVars = Vec::new();
            let mut i: usize = 0;
            while i < v.len()
                invariant
                    i <= v@.len(),
                    out@ == v@.subrange(0, i as int),
                decreases v@.len() - i,
            {
                let k = v[i].0.clone();
                let x = v[i].1.clone();
                out.push((k, x));
                i = i + 1;
                assert(out@ =~= v@.subrange(0, i as int));
            }
            assert(out@ =~= v@);
            Some(out)
        },
    }
}

} // verus!

verus! {

pub open spec fn env_view(e: Option<EnvVars>) -> Option<Seq<(String, String)>> {
    match e {
        Some(v) => Some(v@),
        None => None,
    }
}

impl Command {
    /// Equal field by field, lists compared by their contents.
    pub open spec fn same_as(&self, o: &Command) -> bool {
        &&& self.id == o.id
        &&& self.name == o.name
        &&& self.command == o.command
        &&& self.arguments@ == o.arguments@
        &&& self.description == o.description
        &&& self.group_id == o.group_id
        &&& self.position == o.position
        &&& self.working_directory == o.working_directory
        &&& env_view(self.env_vars) == env_view(o.env_vars)
        &&& self.shell == o.shell
        &&& self.category_id == o.category_id
        &&& self.is_favorite == o.is_favorite
        &&& self.created_at == o.created_at
        &&& self.updated_at == o.updated_at
    }

    pub fn duplicate(&self) -> (r: Command)
        ensures
            r.same_as(self),
    {
        Command {
            id: self.id,
            name: self.name.clone(),
            command: self.command.clone(),
            arguments: copy_strings(&self.arguments),
            description: copy_text(&self.description),
            group_id: self.group_id,
            position: self.position,
            working_directory: copy_text(&self.working_directory),
            env_vars: copy_env(&self.env_vars),
            shell: copy_text(&self.shell),
            category_id: self.category_id,
            is_favorite: self.is_favorite,
            created_at: self.created_at,
            updated_at: self.updated_at,
        }
    }
}

impl Group {
    /// Equal field by field, lists compared by their contents.
    pub open spec fn same_as(&self, o: &Group) -> bool {
        &&& self.id == o.id
        &&& self.name == o.name
        &&& self.description == o.description
        &&& self.parent_group_id == o.parent_group_id
        &&& self.position == o.position
        &&& self.working_directory == o.working_directory
        &&& env_view(self.env_vars) == env_view(o.env_vars)
        &&& self.shell == o.shell
        &&& self.category_id == o.category_id
        &&& self.is_favorite == o.is_favorite
        &&& self.icon == o.icon
        &&& self.created_at == o.created_at
        &&& self.updated_at == o.updated_at
    }

    pub fn duplicate(&self) -> (r: Group)
        ensures
            r.same_as(self),
    {
        Group {
            id: self.id,
            name: self.name.clone(),
            description: copy_text(&self.description),
            parent_group_id: self.parent_group_id,
            position: self.position,
            working_directory: copy_text(&self.working_directory),
            env_vars: copy_env(&self.env_vars),
            shell: copy_text(&self.shell),
            category_id: self.category_id,
            is_favorite: self.is_favorite,
            icon: copy_text(&self.icon),
            created_at: self.created_at,
            updated_at: self.updated_at,
        }
    }
}

impl Category {
    pub fn duplicate(&self) -> (r: Category)
        ensures
            r == *self,
    {
        Category {
            id: self.id,
            name: self.name.clone(),
            icon: copy_text(&self.icon),
            color: copy_text(&self.color),
            created_at: self.created_at,
        }
    }
}

impl Workflow {
    pub fn duplicate(&self) -> (r: Workflow)
        ensures
            r == *self,
    {
        Workflow {
            id: self.id,
            name: self.name.clone(),
            description: copy_text(&self.description),
            category_id: self.category_id,
            is_favorite: self.is_favorite,
            execution_mode: self.execution_mode,
            position: self.position,
            created_at: self.created_at,
            updated_at: self.updated_at,
        }
    }
}

impl WorkflowStep {
    pub fn duplicate(&self) -> (r: WorkflowStep)
        ensures
            r == *self,
    {
        WorkflowStep {
            id: self.id,
            workflow_id: self.workflow_id,
            command_id: self.command_id,
            position: self.position,
            condition: self.condition,
            timeout_seconds: self.timeout_seconds,
            auto_retry_count: self.auto_retry_count,
            enabled: self.enabled,
            continue_on_failure: self.continue_on_failure,
            created_at: self.created_at,
            updated_at: self.updated_at,
        }
    }
}

impl ExecutionHistory {
    pub fn duplicate(&self) -> (r: ExecutionHistory)
        ensures
            r == *self,
    {
        ExecutionHistory {
            id: self.id,
            command_id: self.command_id,
            workflow_id: self.workflow_id,
            workflow_step_id: self.workflow_step_id,
            pid: self.pid,
            status: self.status,
            exit_code: self.exit_code,
            started_at: self.started_at,
            completed_at: self.completed_at,
            triggered_by: self.triggered_by,
            context: copy_text(&self.context),
        }
    }
}

impl Positioned for Command {
    open spec fn slot(&self) -> Slot {
        Slot { id: self.id, parent: self.group_id, position: self.position }
    }

    open spec fn with_position(&self, p: i64) -> Command {
        Command { position: p, ..*self }
    }

    proof fn lemma_with_position(&self, p: i64) {
    }

    fn id(&self) -> (r: i64) {
        self.id
    }

    fn parent(&self) -> (r: Option<i64>) {
        self.group_id
    }

    fn position(&self) -> (r: i64) {
        self.position
    }

    fn set_position(&mut self, p: i64) {
        self.position = p;
    }
}

impl Positioned for Group {
    open spec fn slot(&self) -> Slot {
        Slot { id: self.id, parent: self.parent_group_id, position: self.position }
    }

    open spec fn with_position(&self, p: i64) -> Group {
        Group { position: p, ..*self }
    }

    proof fn lemma_with_position(&self, p: i64) {
    }

    fn id(&self) -> (r: i64) {
        self.id
    }

    fn parent(&self) -> (r: Option<i64>) {
        self.parent_group_id
    }

    fn position(&self) -> (r: i64) {
        self.position
    }

    fn set_position(&mut self, p: i64) {
        self.position = p;
    }
}

impl Positioned for Workflow {
    /// Workflows form a single sibling set.
    open spec fn slot(&self) -> Slot {
        Slot { id: self.id, parent: None, position: self.position }
    }

    open spec fn with_position(&self, p: i64) -> Workflow {
        Workflow { position: p, ..*self }
    }

    proof fn lemma_with_position(&self, p: i64) {
    }

    fn id(&self) -> (r: i64) {
        self.id
    }

    fn parent(&self) -> (r: Option<i64>) {
        None
    }

    fn position(&self) -> (r: i64) {
        self.position
    }

    fn set_position(&mut self, p: i64) {
        self.position = p;
    }
}

impl Positioned for WorkflowStep {
    /// The steps of one workflow form a sibling set.
    open spec fn slot(&self) -> Slot {
        Slot { id: self.id, parent: Some(self.workflow_id), position: self.position }
    }

    open spec fn with_position(&self, p: i64) -> WorkflowStep {
        WorkflowStep { position: p, ..*self }
    }

    proof fn lemma_with_position(&self, p: i64) {
    }

    fn id(&self) -> (r: i64) {
        self.id
    }

    fn parent(&self) -> (r: Option<i64>) {
        Some(self.workflow_id)
    }

    fn position(&self) -> (r: i64) {
        self.position
    }

    fn set_position(&mut self, p: i64) {
        self.position = p;
    }
}

} // verus!
