//! Store behaviour on concrete records.
#![allow(unused_imports, unused_mut, unused_variables, dead_code)]

use tgui_db::builders::{
    CommandBuilder, ExecutionHistoryBuilder, GroupBuilder, WorkflowBuilder, WorkflowStepBuilder,
};
use tgui_db::error::DatabaseError;
use tgui_db::ledger::EXECUTION_HISTORY_LIMIT;
use tgui_db::models::{
    Command, ExecutionHistory, ExecutionMode, Group, Status, StepCondition, TriggeredBy, Workflow,
    WorkflowStep,
};
use tgui_db::position::POSITION_GAP;
use tgui_db::store::{
    Database, CATEGORIES_TABLE, COMMANDS_TABLE, EXECUTION_HISTORY_TABLE, GROUPS_TABLE,
    WORKFLOWS_TABLE, WORKFLOW_STEPS_TABLE,
};

struct TestDb {
    db: Database,
}

impl TestDb {
    fn setup_test_db() -> Self {
        let mut db = Database::new();
        db.set_clock(1_700_000_000);
        TestDb { db }
    }

    fn create_test_category(&mut self, name: &str) -> i64 {
        self.db.create_category(name, None, None).unwrap()
    }

    fn create_test_group(&mut self, name: &str) -> i64 {
        let group = GroupBuilder::new(name).build();
        self.save_group_to_db(&group)
    }

    fn save_group_to_db(&mut self, group: &Group) -> i64 {
        self.db.create_group(group).unwrap()
    }

    fn create_test_command(&mut self, name: &str, command: &str, group_id: Option<i64>) -> i64 {
        let mut command_builder = CommandBuilder::new(name, command);
        if let Some(group_id) = group_id {
            command_builder = command_builder.with_group(group_id);
        }
        self.save_command_to_db(&command_builder.build())
    }

    fn save_command_to_db(&mut self, command: &Command) -> i64 {
        self.db.create_command(command).unwrap()
    }

    fn create_test_workflow(&mut self, name: &str) -> i64 {
        let workflow = WorkflowBuilder::new(name).build();
        self.save_workflow_to_db(&workflow)
    }

    fn save_workflow_to_db(&mut self, workflow: &Workflow) -> i64 {
        self.db.create_workflow(workflow).unwrap()
    }

    fn create_test_workflow_step(&mut self, workflow_id: i64, command_id: i64) -> i64 {
        self.db
            .create_workflow_step(&WorkflowStepBuilder::new(workflow_id, command_id).build())
            .unwrap()
    }

    fn save_execution_history(&mut self, history: &ExecutionHistory) -> i64 {
        self.db.create_execution_history(history).unwrap()
    }
}

fn env_get<'a>(env: &'a [(String, String)], key: &str) -> Option<&'a String> {
    env.iter().find(|(k, _)| k == key).map(|(_, v)| v)
}

#[test]
fn test_full_workflow_project_setup() {
    let mut test_db = TestDb::setup_test_db();

    let dev_cat = test_db.create_test_category("Development");

    // Create group hierarchy
    let project_group_id = test_db.create_test_group("MyApp");
    let backend_group_id = test_db.save_group_to_db(
        &GroupBuilder::new("Backend")
            .with_parent(project_group_id)
            .build(),
    );
    let frontend_group_id = test_db.save_group_to_db(
        &GroupBuilder::new("Frontend")
            .with_parent(project_group_id)
            .build(),
    );

    // Assign category to groups
    let mut backend_group = test_db.db.get_group(backend_group_id).unwrap();
    backend_group.category_id = Some(dev_cat);
    test_db.db.update_group(&backend_group).unwrap();

    // Create commands
    let build_cmd = CommandBuilder::new("Build", "cargo build")
        .with_group(backend_group_id)
        .with_category(dev_cat)
        .build();
    let build_id = test_db.save_command_to_db(&build_cmd);

    let test_cmd = CommandBuilder::new("Test", "npm test")
        .with_group(frontend_group_id)
        .with_category(dev_cat)
        .build();
    test_db.save_command_to_db(&test_cmd);

    // Verify relationships
    let build = test_db.db.get_command(build_id).unwrap();
    assert_eq!(build.group_id, Some(backend_group_id));
    assert_eq!(build.category_id, Some(dev_cat));

    // Verify tree structure
    let tree = test_db.db.get_group_tree(project_group_id).unwrap();
    assert_eq!(tree.len(), 3);

    // Verify path
    let path = test_db.db.get_group_path(backend_group_id).unwrap();
    assert_eq!(path, vec!["MyApp", "Backend"]);
}

#[test]
fn test_cascade_delete_category_preserves_commands() {
    let mut test_db = TestDb::setup_test_db();
    let cat_id = test_db.create_test_category("Temp");
    let group_id = test_db.create_test_group("Test");

    let mut cmd = CommandBuilder::new("Test", "echo").build();
    cmd.category_id = Some(cat_id);
    cmd.group_id = Some(group_id);
    let cmd_id = test_db.db.create_command(&cmd).unwrap();

    test_db.db.delete_category(cat_id).unwrap();

    let cmd = test_db.db.get_command(cmd_id).unwrap();
    assert_eq!(cmd.category_id, None);
    assert_eq!(cmd.group_id, Some(group_id)); // Group still set
}

#[test]
fn test_cascade_delete_group_deletes_commands() {
    let mut test_db = TestDb::setup_test_db();
    let group_id = test_db.create_test_group("Deletable");
    let cat_id = test_db.create_test_category("Test");

    let mut cmd = CommandBuilder::new("Test", "echo").build();
    cmd.group_id = Some(group_id);
    cmd.category_id = Some(cat_id);
    let cmd_id = test_db.db.create_command(&cmd).unwrap();

    test_db.db.delete_group(group_id).unwrap();

    let result = test_db.db.get_command(cmd_id);
    assert!(matches!(result, Err(DatabaseError::NotFound { .. })));

    let cat = test_db.db.get_category(cat_id).unwrap();
    assert_eq!(cat.name, "Test");
}

#[test]
fn test_very_long_group_name() {
    let mut test_db = TestDb::setup_test_db();
    let long_name = "a".repeat(500);
    let group_id = test_db.create_test_group(&long_name);

    let group = test_db.db.get_group(group_id).unwrap();
    assert_eq!(group.name.len(), 500);
}

#[test]
fn test_unicode_names() {
    let mut test_db = TestDb::setup_test_db();

    let cat_id = test_db
        .db
        .create_category("ğŸš€ Deployment", None, None)
        .unwrap();
    let cat = test_db.db.get_category(cat_id).unwrap();
    assert_eq!(cat.name, "ğŸš€ Deployment");

    let group_id = test_db.create_test_group("à¦ªà¦°à§€à¦•à§à¦·à¦¾");
    let group = test_db.db.get_group(group_id).unwrap();
    assert_eq!(group.name, "à¦ªà¦°à§€à¦•à§à¦·à¦¾");

    let cmd = CommandBuilder::new("Emojis ğŸ‰", "echo ğŸŠ").build();
    let cmd_id = test_db.db.create_command(&cmd).unwrap();
    let retrieved_cmd = test_db.db.get_command(cmd_id).unwrap();
    assert_eq!(retrieved_cmd.name, "Emojis ğŸ‰");
}

#[test]
fn test_database_locked_error() {
    let mut test_db = TestDb::setup_test_db();

    let error = DatabaseError::DatabaseLocked;
    assert_eq!(
        error.message(),
        "Database is locked by another process. Please try again."
    );
}
