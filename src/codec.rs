//! Text codecs of the enumerations that the store keeps as text.
use vstd::prelude::*;
use crate::models::{ExecutionMode, Status, StepCondition, TriggeredBy};

verus! {

fn text_eq(a: &str, b: &str) -> (r: bool)
    ensures
        r == (a@ == b@),
{
    String::from_str(a) == String::from_str(b)
}

/// The text form of each ExecutionMode variant.
pub open spec fn mode_text(v: ExecutionMode) -> Seq<char> {
    match v {
        ExecutionMode::Sequential => "sequential"@,
        ExecutionMode::Parallel => "parallel"@,
        ExecutionMode::Conditional => "conditional"@,
    }
}

impl ExecutionMode {
    pub fn as_str(&self) -> (r: &'static str)
        ensures
            r@ == mode_text(*self),
    {
        match self {
            ExecutionMode::Sequential => "sequential",
            ExecutionMode::Parallel => "parallel",
            ExecutionMode::Conditional => "conditional",
        }
    }

    /// Parses the text form; any other text is an error that names it.
    pub fn from_str(s: &str) -> (r: Result<ExecutionMode, String>)
        ensures
            forall|v: ExecutionMode| #![auto] s@ == mode_text(v) ==> r == Ok::<ExecutionMode, String>(v),
            r matches Ok(v) ==> s@ == mode_text(v),
            r matches Err(m) ==> m@ == "Invalid execution mode: "@ + s@,
    {
        proof {
            reveal_strlit("sequential");
            reveal_strlit("parallel");
            reveal_strlit("conditional");
            assert("sequential"@.len() != "parallel"@.len());
            assert("sequential"@.len() != "conditional"@.len());
            assert("parallel"@.len() != "conditional"@.len());
        }
        if text_eq(s, "sequential") {
            Ok(ExecutionMode::Sequential)
        } else if text_eq(s, "parallel") {
            Ok(ExecutionMode::Parallel)
        } else if text_eq(s, "conditional") {
            Ok(ExecutionMode::Conditional)
        } else {
            Err(String::from_str("Invalid execution mode: ").concat(s))
        }
    }
}

/// The text form of each StepCondition variant.
pub open spec fn condition_text(v: StepCondition) -> Seq<char> {
    match v {
        StepCondition::Always => "always"@,
        StepCondition::OnSuccess => "on_success"@,
        StepCondition::OnFailure => "on_failure"@,
    }
}

impl StepCondition {
    pub fn as_str(&self) -> (r: &'static str)
        ensures
            r@ == condition_text(*self),
    {
        match self {
            StepCondition::Always => "always",
            StepCondition::OnSuccess => "on_success",
            StepCondition::OnFailure => "on_failure",
        }
    }

    /// Parses the text form; any other text is an error that names it.
    pub fn from_str(s: &str) -> (r: Result<StepCondition, String>)
        ensures
            forall|v: StepCondition| #![auto] s@ == condition_text(v) ==> r == Ok::<StepCondition, String>(v),
            r matches Ok(v) ==> s@ == condition_text(v),
            r matches Err(m) ==> m@ == "Invalid condition: "@ + s@,
    {
        proof {
            reveal_strlit("always");
            reveal_strlit("on_success");
            reveal_strlit("on_failure");
            assert("always"@.len() != "on_success"@.len());
            assert("always"@.len() != "on_failure"@.len());
            assert("on_success"@[3] != "on_failure"@[3]);
        }
        if text_eq(s, "always") {
            Ok(StepCondition::Always)
        } else if text_eq(s, "on_success") {
            Ok(StepCondition::OnSuccess)
        } else if text_eq(s, "on_failure") {
            Ok(StepCondition::OnFailure)
        } else {
            Err(String::from_str("Invalid condition: ").concat(s))
        }
    }
}

/// The text form of each TriggeredBy variant.
pub open spec fn trigger_text(v: TriggeredBy) -> Seq<char> {
    match v {
        TriggeredBy::Manual => "manual"@,
        TriggeredBy::Workflow => "workflow"@,
        TriggeredBy::Schedule => "schedule"@,
    }
}

impl TriggeredBy {
    pub fn as_str(&self) -> (r: &'static str)
        ensures
            r@ == trigger_text(*self),
    {
        match self {
            TriggeredBy::Manual => "manual",
            TriggeredBy::Workflow => "workflow",
            TriggeredBy::Schedule => "schedule",
        }
    }

    /// Parses the text form; any other text is an error that names it.
    pub fn from_str(s: &str) -> (r: Result<TriggeredBy, String>)
        ensures
            forall|v: TriggeredBy| #![auto] s@ == trigger_text(v) ==> r == Ok::<TriggeredBy, String>(v),
            r matches Ok(v) ==> s@ == trigger_text(v),
            r matches Err(m) ==> m@ == "Invalid trigger: "@ + s@,
    {
        proof {
            reveal_strlit("manual");
            reveal_strlit("workflow");
            reveal_strlit("schedule");
            assert("manual"@.len() != "workflow"@.len());
            assert("manual"@.len() != "schedule"@.len());
            assert("workflow"@[0] != "schedule"@[0]);
        }
        if text_eq(s, "manual") {
            Ok(TriggeredBy::Manual)
        } else if text_eq(s, "workflow") {
            Ok(TriggeredBy::Workflow)
        } else if text_eq(s, "schedule") {
            Ok(TriggeredBy::Schedule)
        } else {
            Err(String::from_str("Invalid trigger: ").concat(s))
        }
    }
}

/// The text form of each Status variant.
pub open spec fn status_text(v: Status) -> Seq<char> {
    match v {
        Status::Idle => "idle"@,
        Status::Running => "running"@,
        Status::Success => "success"@,
        Status::Interrupted => "interrupted"@,
        Status::Paused => "paused"@,
        Status::Failed => "failed"@,
        Status::TimedOut => "timed-out"@,
        Status::Cancelled => "cancelled"@,
        Status::Skipped => "skipped"@,
        Status::Completed => "completed"@,
    }
}

impl Status {
    pub fn as_str(&self) -> (r: &'static str)
        ensures
            r@ == status_text(*self),
    {
        match self {
            Status::Idle => "idle",
            Status::Running => "running",
            Status::Success => "success",
            Status::Interrupted => "interrupted",
            Status::Paused => "paused",
            Status::Failed => "failed",
            Status::TimedOut => "timed-out",
            Status::Cancelled => "cancelled",
            Status::Skipped => "skipped",
            Status::Completed => "completed",
        }
    }

    /// Parses the text form; any other text is an error that names it.
    pub fn from_str(s: &str) -> (r: Result<Status, String>)
        ensures
            forall|v: Status| #![auto] s@ == status_text(v) ==> r == Ok::<Status, String>(v),
            r matches Ok(v) ==> s@ == status_text(v),
            r matches Err(m) ==> m@ == "Invalid status: "@ + s@,
    {
        proof {
            reveal_strlit("idle");
            reveal_strlit("running");
            reveal_strlit("success");
            reveal_strlit("interrupted");
            reveal_strlit("paused");
            reveal_strlit("failed");
            reveal_strlit("timed-out");
            reveal_strlit("cancelled");
            reveal_strlit("skipped");
            reveal_strlit("completed");
            assert("idle"@.len() != "running"@.len());
            assert("idle"@.len() != "success"@.len());
            assert("idle"@.len() != "interrupted"@.len());
            assert("idle"@.len() != "paused"@.len());
            assert("idle"@.len() != "failed"@.len());
            assert("idle"@.len() != "timed-out"@.len());
            assert("idle"@.len() != "cancelled"@.len());
            assert("idle"@.len() != "skipped"@.len());
            assert("idle"@.len() != "completed"@.len());
            assert("running"@[0] != "success"@[0]);
            assert("running"@.len() != "interrupted"@.len());
            assert("running"@.len() != "paused"@.len());
            assert("running"@.len() != "failed"@.len());
            assert("running"@.len() != "timed-out"@.len());
            assert("running"@.len() != "cancelled"@.len());
            assert("running"@[0] != "skipped"@[0]);
            assert("running"@.len() != "completed"@.len());
            assert("success"@.len() != "interrupted"@.len());
            assert("success"@.len() != "paused"@.len());
            assert("success"@.len() != "failed"@.len());
            assert("success"@.len() != "timed-out"@.len());
            assert("success"@.len() != "cancelled"@.len());
            assert("success"@[1] != "skipped"@[1]);
            assert("success"@.len() != "completed"@.len());
            assert("interrupted"@.len() != "paused"@.len());
            assert("interrupted"@.len() != "failed"@.len());
            assert("interrupted"@.len() != "timed-out"@.len());
            assert("interrupted"@.len() != "cancelled"@.len());
            assert("interrupted"@.len() != "skipped"@.len());
            assert("interrupted"@.len() != "completed"@.len());
            assert("paused"@[0] != "failed"@[0]);
            assert("paused"@.len() != "timed-out"@.len());
            assert("paused"@.len() != "cancelled"@.len());
            assert("paused"@.len() != "skipped"@.len());
            assert("paused"@.len() != "completed"@.len());
            assert("failed"@.len() != "timed-out"@.len());
            assert("failed"@.len() != "cancelled"@.len());
            assert("failed"@.len() != "skipped"@.len());
            assert("failed"@.len() != "completed"@.len());
            assert("timed-out"@[0] != "cancelled"@[0]);
            assert("timed-out"@.len() != "skipped"@.len());
            assert("timed-out"@[0] != "completed"@[0]);
            assert("cancelled"@.len() != "skipped"@.len());
            assert("cancelled"@[1] != "completed"@[1]);
            assert("skipped"@.len() != "completed"@.len());
        }
        if text_eq(s, "idle") {
            Ok(Status::Idle)
        } else if text_eq(s, "running") {
            Ok(Status::Running)
        } else if text_eq(s, "success") {
            Ok(Status::Success)
        } else if text_eq(s, "interrupted") {
            Ok(Status::Interrupted)
        } else if text_eq(s, "paused") {
            Ok(Status::Paused)
        } else if text_eq(s, "failed") {
            Ok(Status::Failed)
        } else if text_eq(s, "timed-out") {
            Ok(Status::TimedOut)
        } else if text_eq(s, "cancelled") {
            Ok(Status::Cancelled)
        } else if text_eq(s, "skipped") {
            Ok(Status::Skipped)
        } else if text_eq(s, "completed") {
            Ok(Status::Completed)
        } else {
            Err(String::from_str("Invalid status: ").concat(s))
        }
    }
}

impl ExecutionMode {
    /// Reads a stored text form; text that names no variant reads as `Sequential`.
    pub fn from_stored(s: &str) -> (r: ExecutionMode)
        ensures
            forall|v: ExecutionMode| #![auto] s@ == mode_text(v) ==> r == v,
            (forall|v: ExecutionMode| #![auto] s@ != mode_text(v)) ==> r == ExecutionMode::Sequential,
    {
        match ExecutionMode::from_str(s) {
            Ok(v) => v,
            Err(_) => ExecutionMode::Sequential,
        }
    }
}

impl StepCondition {
    /// Reads a stored text form; text that names no variant reads as `Always`.
    pub fn from_stored(s: &str) -> (r: StepCondition)
        ensures
            forall|v: StepCondition| #![auto] s@ == condition_text(v) ==> r == v,
            (forall|v: StepCondition| #![auto] s@ != condition_text(v)) ==> r == StepCondition::Always,
    {
        match StepCondition::from_str(s) {
            Ok(v) => v,
            Err(_) => StepCondition::Always,
        }
    }
}

impl Status {
    /// Reads a stored text form; text that names no variant reads as `Completed`.
    pub fn from_stored(s: &str) -> (r: Status)
        ensures
            forall|v: Status| #![auto] s@ == status_text(v) ==> r == v,
            (forall|v: Status| #![auto] s@ != status_text(v)) ==> r == Status::Completed,
    {
        match Status::from_str(s) {
            Ok(v) => v,
            Err(_) => Status::Completed,
        }
    }
}

impl TriggeredBy {
    /// Reads a stored text form; text that names no variant reads as
    /// `Workflow` for a record that names a workflow, else as `Manual`.
    pub fn from_stored(s: &str, has_workflow: bool) -> (r: TriggeredBy)
        ensures
            forall|v: TriggeredBy| #![auto] s@ == trigger_text(v) ==> r == v,
            (forall|v: TriggeredBy| #![auto] s@ != trigger_text(v)) ==> r == (if has_workflow {
                TriggeredBy::Workflow
            } else {
                TriggeredBy::Manual
            }),
    {
        match TriggeredBy::from_str(s) {
            Ok(v) => v,
            Err(_) => if has_workflow {
                TriggeredBy::Workflow
            } else {
                TriggeredBy::Manual
            },
        }
    }
}

} // verus!
