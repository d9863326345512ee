//! Store behaviour on concrete records.
#![allow(unused_imports, unused_mut, unused_variables, dead_code)]

use tgui_db::builders::{
    CommandBuilder, ExecutionHistoryBuilder, GroupBuilder, WorkflowBuilder, WorkflowStepBuilder,
};
use tgui_db::error::DatabaseError;
use tgui_db::ledger::EXECUTION_HISTORY_LIMIT;
use tgui_db::models::{
    Command, ExecutionHistory, ExecutionMode, Group, Status, StepCondition, TriggeredBy, Workflow,
    WorkflowStep,
};
use tgui_db::position::POSITION_GAP;
use tgui_db::store::{
    Database, CATEGORIES_TABLE, COMMANDS_TABLE, EXECUTION_HISTORY_TABLE, GROUPS_TABLE,
    WORKFLOWS_TABLE, WORKFLOW_STEPS_TABLE,
};

struct TestDb {
    db: Database,
}

impl TestDb {
    fn setup_test_db() -> Self {
        let mut db = Database::new();
        db.set_clock(1_700_000_000);
        TestDb { db }
    }

    fn create_test_category(&mut self, name: &str) -> i64 {
        self.db.create_category(name, None, None).unwrap()
    }

    fn create_test_group(&mut self, name: &str) -> i64 {
        let group = GroupBuilder::new(name).build();
        self.save_group_to_db(&group)
    }

    fn save_group_to_db(&mut self, group: &Group) -> i64 {
        self.db.create_group(group).unwrap()
    }

    fn create_test_command(&mut self, name: &str, command: &str, group_id: Option<i64>) -> i64 {
        let mut command_builder = CommandBuilder::new(name, command);
        if let Some(group_id) = group_id {
            command_builder = command_builder.with_group(group_id);
        }
        self.save_command_to_db(&command_builder.build())
    }

    fn save_command_to_db(&mut self, command: &Command) -> i64 {
        self.db.create_command(command).unwrap()
    }

    fn create_test_workflow(&mut self, name: &str) -> i64 {
        let workflow = WorkflowBuilder::new(name).build();
        self.save_workflow_to_db(&workflow)
    }

    fn save_workflow_to_db(&mut self, workflow: &Workflow) -> i64 {
        self.db.create_workflow(workflow).unwrap()
    }

    fn create_test_workflow_step(&mut self, workflow_id: i64, command_id: i64) -> i64 {
        self.db
            .create_workflow_step(&WorkflowStepBuilder::new(workflow_id, command_id).build())
            .unwrap()
    }

    fn save_execution_history(&mut self, history: &ExecutionHistory) -> i64 {
        self.db.create_execution_history(history).unwrap()
    }
}

fn env_get<'a>(env: &'a [(String, String)], key: &str) -> Option<&'a String> {
    env.iter().find(|(k, _)| k == key).map(|(_, v)| v)
}

#[test]
fn test_create_and_get_category() {
    let mut test_db = TestDb::setup_test_db();
    let cat_name = "Development";
    let cat_id = test_db.create_test_category(cat_name);

    assert!(cat_id > 0);
    let category = test_db.db.get_category(cat_id).unwrap();
    assert_eq!(category.name, cat_name);
    assert_eq!(category.icon, None);
    assert_eq!(category.color, None);
}

#[test]
fn test_create_category_with_icon_and_color() {
    let mut test_db = TestDb::setup_test_db();
    let cat_name = "Development";
    let icon = "smiley";
    let color = "#FF0000";

    let cat_id = test_db
        .db
        .create_category(cat_name, Some(icon), Some(color))
        .unwrap();
    let category = test_db.db.get_category(cat_id).unwrap();

    assert_eq!(category.icon, Some(icon.to_string()));
    assert_eq!(category.color, Some(color.to_string()));
}

#[test]
fn test_create_category_empty_name() {
    let mut test_db = TestDb::setup_test_db();
    let result = test_db.db.create_category("", None, None);
    assert!(matches!(
        result,
        Err(DatabaseError::InvalidData { field: "name", .. })
    ));
}

#[test]
fn test_create_category_whitespace_name() {
    let mut test_db = TestDb::setup_test_db();
    let result = test_db.db.create_category("   ", None, None);
    assert!(matches!(
        result,
        Err(DatabaseError::InvalidData { field: "name", .. })
    ));
}

#[test]
fn test_create_category_duplicate_name() {
    let mut test_db = TestDb::setup_test_db();
    test_db.create_test_category("Unique");

    let result = test_db.db.create_category("Unique", None, None);
    assert!(matches!(result, Err(DatabaseError::Internal(msg)) if msg.contains("UNIQUE")));
}

#[test]
fn test_get_category_not_found() {
    let mut test_db = TestDb::setup_test_db();
    let result = test_db.db.get_category(99999);
    assert!(matches!(
        result,
        Err(DatabaseError::NotFound {
            entity: CATEGORIES_TABLE,
            id: 99999
        })
    ));
}

#[test]
fn test_get_all_categories_ordered() {
    let mut test_db = TestDb::setup_test_db();
    test_db.create_test_category("Zebra");
    test_db.create_test_category("Alpha");
    test_db.create_test_category("Beta");

    let categories = test_db.db.get_categories().unwrap();
    assert_eq!(categories.len(), 3);
    assert_eq!(categories[0].name, "Alpha");
    assert_eq!(categories[1].name, "Beta");
    assert_eq!(categories[2].name, "Zebra");
}

#[test]
fn test_update_category() {
    let mut test_db = TestDb::setup_test_db();
    let cat_id = test_db.create_test_category("Original");

    test_db
        .db
        .update_category(cat_id, "Updated", Some("🎨"), Some("#00FF00"))
        .unwrap();

    let updated = test_db.db.get_category(cat_id).unwrap();
    assert_eq!(updated.name, "Updated");
    assert_eq!(updated.icon, Some("🎨".to_string()));
    assert_eq!(updated.color, Some("#00FF00".to_string()));
}

#[test]
fn test_update_category_not_found() {
    let mut test_db = TestDb::setup_test_db();
    let result = test_db.db.update_category(99999, "Ghost", None, None);
    assert!(matches!(
        result,
        Err(DatabaseError::NotFound {
            entity: CATEGORIES_TABLE,
            id: 99999
        })
    ));
}

#[test]
fn test_update_category_to_empty_name() {
    let mut test_db = TestDb::setup_test_db();
    let cat_id = test_db.create_test_category("Valid");

    let result = test_db.db.update_category(cat_id, "", None, None);
    assert!(matches!(
        result,
        Err(DatabaseError::InvalidData { field: "name", .. })
    ));
}

#[test]
fn test_update_category_duplicate_name() {
    let mut test_db = TestDb::setup_test_db();
    test_db.create_test_category("First");
    let cat2_id = test_db.create_test_category("Second");

    let result = test_db.db.update_category(cat2_id, "First", None, None);
    assert!(matches!(result, Err(DatabaseError::Internal(msg)) if msg.contains("UNIQUE")));
}

#[test]
fn test_delete_category() {
    let mut test_db = TestDb::setup_test_db();
    let cat_id = test_db.create_test_category("To Delete");

    test_db.db.delete_category(cat_id).unwrap();

    let result = test_db.db.get_category(cat_id);
    assert!(matches!(result, Err(DatabaseError::NotFound { .. })));
}

#[test]
fn test_delete_category_not_found() {
    let mut test_db = TestDb::setup_test_db();
    let result = test_db.db.delete_category(99999);
    assert!(matches!(
        result,
        Err(DatabaseError::NotFound {
            entity: CATEGORIES_TABLE,
            id: 99999
        })
    ));
}

#[test]
fn test_delete_category_sets_commands_to_null() {
    let mut test_db = TestDb::setup_test_db();
    let cat_id = test_db.create_test_category("Development");
    let group_id = test_db.create_test_group("Test Group");

    let mut cmd = CommandBuilder::new("Test", "echo").build();
    cmd.category_id = Some(cat_id);
    cmd.group_id = Some(group_id);

    let cmd_id = test_db.db.create_command(&cmd).unwrap();

    test_db.db.delete_category(cat_id).unwrap();

    let command = test_db.db.get_command(cmd_id).unwrap();
    assert_eq!(command.category_id, None);
}

#[test]
fn test_get_category_command_count() {
    let mut test_db = TestDb::setup_test_db();
    let cat_id = test_db.create_test_category("Development");
    let group_id = test_db.create_test_group("Test Group");

    let mut cmd1 = CommandBuilder::new("Build", "cargo build").build();
    cmd1.category_id = Some(cat_id);
    cmd1.group_id = Some(group_id);

    let mut cmd2 = CommandBuilder::new("Test", "cargo test").build();
    cmd2.category_id = Some(cat_id);
    cmd2.group_id = Some(group_id);

    test_db.db.create_command(&cmd1).unwrap();
    test_db.db.create_command(&cmd2).unwrap();

    let count = test_db.db.get_category_command_count(cat_id).unwrap();
    assert_eq!(count, 2);
}
