//! Builders that start records from their required fields.
use vstd::prelude::*;
use crate::models::{
    Command, EnvVars, ExecutionHistory, ExecutionMode, Group, Status, StepCondition, TriggeredBy,
    Workflow, WorkflowStep,
};

verus! {

/// The variables as pairs of texts.
pub open spec fn env_pairs(v: Seq<(String, String)>) -> Seq<(Seq<char>, Seq<char>)> {
    Seq::new(v.len(), |i: int| (v[i].0@, v[i].1@))
}

/// The variables with `k` set to `x`: the first pair with that key gets
/// the value, or the pair is added at the end.
pub open spec fn set_var(s: Seq<(Seq<char>, Seq<char>)>, k: Seq<char>, x: Seq<char>) -> Seq<(Seq<char>, Seq<char>)>
    decreases s.len(),
{
    if s.len() == 0 {
        seq![(k, x)]
    } else if s[0].0 == k {
        seq![(k, x)] + s.skip(1)
    } else {
        seq![s[0]] + set_var(s.skip(1), k, x)
    }
}

pub proof fn lemma_set_var_found(s: Seq<(Seq<char>, Seq<char>)>, k: Seq<char>, x: Seq<char>, i: int)
    requires
        0 <= i < s.len(),
        s[i].0 == k,
        forall|j: int| 0 <= j < i ==> s[j].0 != k,
    ensures
        set_var(s, k, x) == s.update(i, (k, x)),
    decreases s.len(),
{
    if i == 0 {
        assert(set_var(s, k, x) =~= s.update(0, (k, x)));
    } else {
        assert(s[0].0 != k);
        assert(s.skip(1)[i - 1] == s[i]);
        assert forall|j: int| 0 <= j < i - 1 implies s.skip(1)[j].0 != k by {
            assert(s.skip(1)[j] == s[j + 1]);
        }
        lemma_set_var_found(s.skip(1), k, x, i - 1);
        assert(set_var(s, k, x) == seq![s[0]] + s.skip(1).update(i - 1, (k, x)));
        assert(set_var(s, k, x) =~= s.update(i, (k, x)));
    }
}

pub proof fn lemma_set_var_absent(s: Seq<(Seq<char>, Seq<char>)>, k: Seq<char>, x: Seq<char>)
    requires
        forall|j: int| 0 <= j < s.len() ==> s[j].0 != k,
    ensures
        set_var(s, k, x) == s.push((k, x)),
    decreases s.len(),
{
    if s.len() > 0 {
        lemma_set_var_absent(s.skip(1), k, x);
        assert(set_var(s, k, x) =~= s.push((k, x)));
    } else {
        assert(set_var(s, k, x) =~= s.push((k, x)));
    }
}

/// The variables after setting `key` to `value`, starting from none.
pub open spec fn env_after(e: Option<EnvVars>, key: Seq<char>, value: Seq<char>) -> Seq<(Seq<char>, Seq<char>)> {
    set_var(
        match e {
            Some(v) => env_pairs(v@),
            None => Seq::empty(),
        },
        key,
        value,
    )
}

pub(crate) fn set_env(e: Option<EnvVars>, key: &str, value: &str) -> (r: EnvVars)
    ensures
        env_pairs(r@) == env_after(e, key@, value@),
{
    let mut v: EnvVars = match e {
        Some(v) => v,
        None => Vec::new(),
    };
    let ghost s = env_pairs(v@);
    assert(s == match e {
        Some(v) => env_pairs(v@),
        None => Seq::<(Seq<char>, Seq<char>)>::empty(),
    }) by {
        if e is None {
            assert(s =~= Seq::<(Seq<char>, Seq<char>)>::empty());
        }
    }
    let k = String::from_str(key);
    let mut i: usize = 0;
    while i < v.len()
        invariant
            i <= v@.len(),
            s == env_pairs(v@),
            env_after(e, key@, value@) == set_var(s, key@, value@),
            k@ == key@,
            forall|j: int| 0 <= j < i ==> s[j].0 != key@,
        decreases v@.len() - i,
    {
        if v[i].0 == k {
            proof {
                lemma_set_var_found(s, key@, value@, i as int);
            }
            let ghost before = v@;
            let pair = (k, String::from_str(value));
            v.set(i, pair);
            assert(env_pairs(v@) =~= s.update(i as int, (key@, value@)));
            return v;
        }
        i = i + 1;
    }
    proof {
        lemma_set_var_absent(s, key@, value@);
    }
    v.push((k, String::from_str(value)));
    assert(env_pairs(v@) =~= s.push((key@, value@)));
    v
}

fn strings_of(args: Vec<&str>) -> (r: Vec<String>)
    ensures
        r@.len() == args@.len(),
        forall|i: int| 0 <= i < args@.len() ==> (#[trigger] r@[i])@ == args@[i]@,
{
    let mut out: Vec<String> = Vec::new();
    let mut i: usize = 0;
    while i < args.len()
        invariant
            i <= args@.len(),
            out@.len() == i,
            forall|j: int| 0 <= j < i ==> (#[trigger] out@[j])@ == args@[j]@,
        decreases args@.len() - i,
    {
        out.push(String::from_str(args[i]));
        i = i + 1;
    }
    out
}

pub struct CommandBuilder {
    pub command: Command,
}

impl CommandBuilder {
    /// A command with a name and a command text, and nothing else set.
    pub fn new(name: &str, cmd: &str) -> (r: CommandBuilder)
        ensures
            r.command.id == 0,
            r.command.name@ == name@,
            r.command.command@ == cmd@,
            r.command.arguments@.len() == 0,
            r.command.description is None,
            r.command.group_id is None,
            r.command.position == 0,
            r.command.working_directory is None,
            r.command.env_vars is None,
            r.command.shell is None,
            r.command.category_id is None,
            !r.command.is_favorite,
            r.command.created_at == 0,
            r.command.updated_at == 0,
    {
        CommandBuilder {
            command: Command {
                id: 0,
                name: String::from_str(name),
                command: String::from_str(cmd),
                arguments: Vec::new(),
                description: None,
                group_id: None,
                position: 0,
                working_directory: None,
                env_vars: None,
                shell: None,
                category_id: None,
                is_favorite: false,
                created_at: 0,
                updated_at: 0,
            },
        }
    }

    pub fn with_group(self, group_id: i64) -> (r: CommandBuilder)
        ensures
            r.command == (Command { group_id: Some(group_id), ..self.command }),
    {
        let mut b = self;
        b.command.group_id = Some(group_id);
        b
    }

    pub fn with_args(self, args: Vec<&str>) -> (r: CommandBuilder)
        ensures
            r.command == (Command { arguments: r.command.arguments, ..self.command }),
            r.command.arguments@.len() == args@.len(),
            forall|i: int| 0 <= i < args@.len() ==> (#[trigger] r.command.arguments@[i])@ == args@[i]@,
    {
        let mut b = self;
        b.command.arguments = strings_of(args);
        b
    }

    /// Sets one environment variable, replacing the value of an existing key.
    pub fn with_env(self, key: &str, value: &str) -> (r: CommandBuilder)
        ensures
            r.command == (Command { env_vars: r.command.env_vars, ..self.command }),
            r.command.env_vars is Some,
            env_pairs(r.command.env_vars.unwrap()@) == env_after(self.command.env_vars, key@, value@),
    {
        let mut b = self;
        let e = b.command.env_vars;
        b.command.env_vars = None;
        b.command.env_vars = Some(set_env(e, key, value));
        b
    }

    pub fn with_category(self, category_id: i64) -> (r: CommandBuilder)
        ensures
            r.command == (Command { category_id: Some(category_id), ..self.command }),
    {
        let mut b = self;
        b.command.category_id = Some(category_id);
        b
    }

    pub fn build(self) -> (r: Command)
        ensures
            r == self.command,
    {
        self.command
    }
}

pub struct GroupBuilder {
    pub group: Group,
}

impl GroupBuilder {
    /// A root group with a name, and nothing else set.
    pub fn new(name: &str) -> (r: GroupBuilder)
        ensures
            r.group.id == 0,
            r.group.name@ == name@,
            r.group.description is None,
            r.group.parent_group_id is None,
            r.group.position == 0,
            r.group.working_directory is None,
            r.group.env_vars is None,
            r.group.shell is None,
            r.group.category_id is None,
            !r.group.is_favorite,
            r.group.icon is None,
            r.group.created_at == 0,
            r.group.updated_at == 0,
    {
        GroupBuilder {
            group: Group {
                id: 0,
                name: String::from_str(name),
                description: None,
                parent_group_id: None,
                position: 0,
                working_directory: None,
                env_vars: None,
                shell: None,
                category_id: None,
                is_favorite: false,
                icon: None,
                created_at: 0,
                updated_at: 0,
            },
        }
    }

    pub fn with_parent(self, parent_id: i64) -> (r: GroupBuilder)
        ensures
            r.group == (Group { parent_group_id: Some(parent_id), ..self.group }),
    {
        let mut b = self;
        b.group.parent_group_id = Some(parent_id);
        b
    }

    pub fn with_category(self, category_id: i64) -> (r: GroupBuilder)
        ensures
            r.group == (Group { category_id: Some(category_id), ..self.group }),
    {
        let mut b = self;
        b.group.category_id = Some(category_id);
        b
    }

    /// Sets one environment variable, replacing the value of an existing key.
    pub fn with_env(self, key: &str, value: &str) -> (r: GroupBuilder)
        ensures
            r.group == (Group { env_vars: r.group.env_vars, ..self.group }),
            r.group.env_vars is Some,
            env_pairs(r.group.env_vars.unwrap()@) == env_after(self.group.env_vars, key@, value@),
    {
        let mut b = self;
        let e = b.group.env_vars;
        b.group.env_vars = None;
        b.group.env_vars = Some(set_env(e, key, value));
        b
    }

    pub fn build(self) -> (r: Group)
        ensures
            r == self.group,
    {
        self.group
    }
}

pub struct WorkflowBuilder {
    pub workflow: Workflow,
}

impl WorkflowBuilder {
    /// A sequential workflow with a name, and nothing else set.
    pub fn new(name: &str) -> (r: WorkflowBuilder)
        ensures
            r.workflow.id == 0,
            r.workflow.name@ == name@,
            r.workflow.description is None,
            r.workflow.category_id is None,
            !r.workflow.is_favorite,
            r.workflow.execution_mode == ExecutionMode::Sequential,
            r.workflow.position == 0,
            r.workflow.created_at == 0,
            r.workflow.updated_at == 0,
    {
        WorkflowBuilder {
            workflow: Workflow {
                id: 0,
                name: String::from_str(name),
                description: None,
                category_id: None,
                is_favorite: false,
                execution_mode: ExecutionMode::Sequential,
                position: 0,
                created_at: 0,
                updated_at: 0,
            },
        }
    }

    pub fn with_category(self, category_id: i64) -> (r: WorkflowBuilder)
        ensures
            r.workflow == (Workflow { category_id: Some(category_id), ..self.workflow }),
    {
        let mut b = self;
        b.workflow.category_id = Some(category_id);
        b
    }

    pub fn with_execution_mode(self, execution_mode: ExecutionMode) -> (r: WorkflowBuilder)
        ensures
            r.workflow == (Workflow { execution_mode, ..self.workflow }),
    {
        let mut b = self;
        b.workflow.execution_mode = execution_mode;
        b
    }

    pub fn build(self) -> (r: Workflow)
        ensures
            r == self.workflow,
    {
        self.workflow
    }
}

pub struct WorkflowStepBuilder {
    pub workflow_step: WorkflowStep,
}

impl WorkflowStepBuilder {
    /// An enabled step that always runs, with no limits.
    pub fn new(workflow_id: i64, command_id: i64) -> (r: WorkflowStepBuilder)
        ensures
            r.workflow_step == (WorkflowStep {
                id: 0,
                workflow_id,
                command_id,
                position: 0,
                condition: StepCondition::Always,
                timeout_seconds: None,
                auto_retry_count: None,
                enabled: true,
                continue_on_failure: false,
                created_at: 0,
                updated_at: 0,
            }),
    {
        WorkflowStepBuilder {
            workflow_step: WorkflowStep {
                id: 0,
                workflow_id,
                command_id,
                position: 0,
                condition: StepCondition::Always,
                timeout_seconds: None,
                auto_retry_count: None,
                enabled: true,
                continue_on_failure: false,
                created_at: 0,
                updated_at: 0,
            },
        }
    }

    pub fn build(self) -> (r: WorkflowStep)
        ensures
            r == self.workflow_step,
    {
        self.workflow_step
    }
}

pub struct ExecutionHistoryBuilder {
    pub execution_history: ExecutionHistory,
}

impl ExecutionHistoryBuilder {
    /// A manual run that names nothing yet.
    pub fn new() -> (r: ExecutionHistoryBuilder)
        ensures
            r.execution_history == (ExecutionHistory {
                id: 0,
                command_id: None,
                workflow_id: None,
                workflow_step_id: None,
                pid: None,
                status: Status::Running,
                exit_code: None,
                started_at: 0,
                completed_at: None,
                triggered_by: TriggeredBy::Manual,
                context: None,
            }),
    {
        ExecutionHistoryBuilder {
            execution_history: ExecutionHistory {
                id: 0,
                command_id: None,
                workflow_id: None,
                workflow_step_id: None,
                pid: None,
                status: Status::Running,
                exit_code: None,
                started_at: 0,
                completed_at: None,
                triggered_by: TriggeredBy::Manual,
                context: None,
            },
        }
    }

    pub fn with_command(self, command_id: i64) -> (r: ExecutionHistoryBuilder)
        ensures
            r.execution_history == (ExecutionHistory { command_id: Some(command_id), ..self.execution_history }),
    {
        let mut b = self;
        b.execution_history.command_id = Some(command_id);
        b
    }

    pub fn with_workflow(self, workflow_id: i64) -> (r: ExecutionHistoryBuilder)
        ensures
            r.execution_history == (ExecutionHistory { workflow_id: Some(workflow_id), ..self.execution_history }),
    {
        let mut b = self;
        b.execution_history.workflow_id = Some(workflow_id);
        b
    }

    pub fn with_trigger(self, triggered_by: TriggeredBy) -> (r: ExecutionHistoryBuilder)
        ensures
            r.execution_history == (ExecutionHistory { triggered_by, ..self.execution_history }),
    {
        let mut b = self;
        b.execution_history.triggered_by = triggered_by;
        b
    }

    /// A run of one step: names the command, the workflow and the step.
    pub fn with_workflow_step(self, command_id: i64, workflow_id: i64, step_id: i64) -> (r: ExecutionHistoryBuilder)
        ensures
            r.execution_history == (ExecutionHistory {
                command_id: Some(command_id),
                workflow_id: Some(workflow_id),
                workflow_step_id: Some(step_id),
                triggered_by: TriggeredBy::Workflow,
                ..self.execution_history
            }),
    {
        let mut b = self;
        b.execution_history.command_id = Some(command_id);
        b.execution_history.workflow_id = Some(workflow_id);
        b.execution_history.workflow_step_id = Some(step_id);
        b.execution_history.triggered_by = TriggeredBy::Workflow;
        b
    }

    pub fn build(self) -> (r: ExecutionHistory)
        ensures
            r == self.execution_history,
    {
        self.execution_history
    }
}

} // verus!
