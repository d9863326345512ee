//! Codecs, error rendering, and the store's laws on concrete values.
use tgui_db::builders::{CommandBuilder, ExecutionHistoryBuilder, GroupBuilder, WorkflowBuilder};
use tgui_db::error::{decimal_string, DatabaseError, SerializableError};
use tgui_db::models::{ExecutionMode, Status, StepCondition, TriggeredBy};
use tgui_db::position::POSITION_GAP;
use tgui_db::store::{validate_env_var_keys, validate_non_empty, Database, COMMANDS_TABLE};
use tgui_db::stored::{decode_arguments, decode_env_vars, encode_arguments, encode_env_vars};
use tgui_db::text::{contains_folded, is_blank, is_valid_key};
use tgui_db::timestamp::parse_timestamp;

#[test]
fn codec_round_trips() {
    for m in [ExecutionMode::Sequential, ExecutionMode::Parallel, ExecutionMode::Conditional] {
        assert_eq!(ExecutionMode::from_str(m.as_str()), Ok(m));
    }
    for c in [StepCondition::Always, StepCondition::OnSuccess, StepCondition::OnFailure] {
        assert_eq!(StepCondition::from_str(c.as_str()), Ok(c));
    }
    for t in [TriggeredBy::Manual, TriggeredBy::Workflow, TriggeredBy::Schedule] {
        assert_eq!(TriggeredBy::from_str(t.as_str()), Ok(t));
    }
    for s in [
        Status::Idle,
        Status::Running,
        Status::Success,
        Status::Interrupted,
        Status::Paused,
        Status::Failed,
        Status::TimedOut,
        Status::Cancelled,
        Status::Skipped,
        Status::Completed,
    ] {
        assert_eq!(Status::from_str(s.as_str()), Ok(s));
    }
    assert_eq!(Status::TimedOut.as_str(), "timed-out");
    assert_eq!(StepCondition::OnSuccess.as_str(), "on_success");
}

#[test]
fn codec_rejects_unknown_text() {
    assert_eq!(ExecutionMode::from_str("bogus"), Err("Invalid execution mode: bogus".to_string()));
    assert_eq!(StepCondition::from_str("never"), Err("Invalid condition: never".to_string()));
    assert_eq!(TriggeredBy::from_str("cron"), Err("Invalid trigger: cron".to_string()));
    assert_eq!(Status::from_str("Running"), Err("Invalid status: Running".to_string()));
}

#[test]
fn stored_text_falls_back() {
    assert_eq!(Status::from_stored("garbage"), Status::Completed);
    assert_eq!(Status::from_stored("failed"), Status::Failed);
    assert_eq!(ExecutionMode::from_stored(""), ExecutionMode::Sequential);
    assert_eq!(StepCondition::from_stored("x"), StepCondition::Always);
    assert_eq!(TriggeredBy::from_stored("x", true), TriggeredBy::Workflow);
    assert_eq!(TriggeredBy::from_stored("x", false), TriggeredBy::Manual);
    assert_eq!(TriggeredBy::from_stored("schedule", false), TriggeredBy::Schedule);
}

#[test]
fn decimal_rendering() {
    assert_eq!(decimal_string(0), "0");
    assert_eq!(decimal_string(42), "42");
    assert_eq!(decimal_string(-7), "-7");
    assert_eq!(decimal_string(i64::MIN), "-9223372036854775808");
    assert_eq!(decimal_string(i64::MAX), "9223372036854775807");
}

#[test]
fn error_messages() {
    let e = DatabaseError::NotFound { entity: "commands", id: 12 };
    assert_eq!(e.message(), "commands with ID 12 not found");
    let e = DatabaseError::InvalidData { field: "name", reason: "name cannot be empty".to_string() };
    assert_eq!(e.message(), "Invalid name: name cannot be empty");
    let e = DatabaseError::CircularReference { group_id: 3, parent_id: 4 };
    assert_eq!(e.message(), "Circular reference detected: group 3 cannot have parent 4 (would create loop)");
    let e = DatabaseError::ForeignKeyViolation { field: "group_id", referenced_id: 9 };
    assert_eq!(e.message(), "group_id references non-existent ID 9");
    assert_eq!(DatabaseError::ConnectionFailed.message(), "Database connection poisoned by previous panic");
    assert_eq!(DatabaseError::Internal("boom".to_string()).message(), "Database error: boom");
}

#[test]
fn serializable_error_fields() {
    let s = SerializableError::from(DatabaseError::NotFound { entity: "groups", id: 5 });
    assert_eq!(s.code, "NOT_FOUND");
    assert_eq!(s.message, "groups with ID 5 not found");
    let s = SerializableError::from(DatabaseError::CircularReference { group_id: 1, parent_id: 2 });
    assert_eq!(s.code, "CIRCULAR_REFERENCE");
    assert_eq!(s.message, "Circular reference detected: group 1 cannot have parent 2 (would create loop)");
    let s = SerializableError::from(DatabaseError::ForeignKeyViolation { field: "category_id", referenced_id: 8 });
    assert_eq!(s.code, "FOREIGN_KEY_VIOLATION");
    let s = SerializableError::from(DatabaseError::InvalidData { field: "name", reason: "bad".to_string() });
    assert_eq!(s.code, "INVALID_DATA");
    assert_eq!(s.message, "Invalid name: bad");
    assert_eq!(SerializableError::from(DatabaseError::DatabaseLocked).code, "DATABASE_LOCKED");
    assert_eq!(SerializableError::from(DatabaseError::ConnectionFailed).code, "DATABASE_CONNECTION_FAIL");
    let s = SerializableError::from(DatabaseError::Internal("x".to_string()));
    assert_eq!(s.code, "INTERNAL");
    assert_eq!(s.message, "Database error: x");
}

#[test]
fn text_checks() {
    assert!(is_blank(""));
    assert!(is_blank(" \t\n\u{3000}"));
    assert!(!is_blank(" a "));
    assert!(is_valid_key("RUST_LOG-2"));
    assert!(!is_valid_key(""));
    assert!(!is_valid_key("A B"));
    assert!(!is_valid_key("ключ"));
    assert!(contains_folded("Cargo Build", "cargo b"));
    assert!(contains_folded("abc", ""));
    assert!(!contains_folded("abc", "abcd"));
    assert!(validate_non_empty("name", "  ").is_err());
    assert!(validate_env_var_keys(&Some(vec![("OK".to_string(), "v".to_string())])).is_ok());
    assert!(matches!(
        validate_env_var_keys(&Some(vec![("bad key".to_string(), "v".to_string())])),
        Err(DatabaseError::InvalidData { field: "env_vars", .. })
    ));
}

fn names(db: &Database, group: Option<i64>) -> Vec<String> {
    db.get_commands(group, None, false).unwrap().into_iter().map(|c| c.name).collect()
}

#[test]
fn scenario_root_group_two_commands() {
    let mut db = Database::new();
    let root = db.create_group(&GroupBuilder::new("root").build()).unwrap();
    assert_eq!(db.get_group(root).unwrap().position, 1000);
    let a = db.create_command(&CommandBuilder::new("A", "echo a").with_group(root).build()).unwrap();
    let b = db.create_command(&CommandBuilder::new("B", "echo b").with_group(root).build()).unwrap();
    // gap + (largest sibling position, or -1) + 1
    assert_eq!(db.get_command(a).unwrap().position, 1000);
    assert_eq!(db.get_command(b).unwrap().position, 2001);
    db.move_command_between(b, None, Some(a)).unwrap();
    assert_eq!(names(&db, Some(root)), vec!["B", "A"]);
    db.move_command_between(a, Some(b), None).unwrap();
    assert_eq!(names(&db, Some(root)), vec!["B", "A"]);
    db.delete_group(root).unwrap();
    assert!(matches!(db.get_command(a), Err(DatabaseError::NotFound { entity: COMMANDS_TABLE, id }) if id == a));
    assert!(matches!(db.get_command(b), Err(DatabaseError::NotFound { entity: COMMANDS_TABLE, id }) if id == b));
}

#[test]
fn moves_keep_the_order_of_others() {
    let mut db = Database::new();
    let ids: Vec<i64> = ["a", "b", "c", "d"]
        .iter()
        .map(|n| db.create_command(&CommandBuilder::new(n, "x").build()).unwrap())
        .collect();
    db.move_command_between(ids[3], Some(ids[0]), Some(ids[1])).unwrap();
    assert_eq!(names(&db, None), vec!["a", "d", "b", "c"]);
    db.move_command_between(ids[0], Some(ids[2]), None).unwrap();
    assert_eq!(names(&db, None), vec!["d", "b", "c", "a"]);
    db.move_command_between(ids[2], None, Some(ids[3])).unwrap();
    assert_eq!(names(&db, None), vec!["c", "d", "b", "a"]);
}

#[test]
fn tight_gap_renumbers_in_order() {
    let mut db = Database::new();
    let a = db.create_command(&CommandBuilder::new("a", "x").build()).unwrap();
    let b = db.create_command(&CommandBuilder::new("b", "x").build()).unwrap();
    let b_start = db.get_command(b).unwrap().position;
    let mut moved = Vec::new();
    // Keep squeezing new rows right after `a` until the gap runs out.
    while db.get_command(b).unwrap().position == b_start {
        let c = db.create_command(&CommandBuilder::new("c", "x").build()).unwrap();
        let second = db.get_commands(None, None, false).unwrap()[1].id;
        db.move_command_between(c, Some(a), Some(second)).unwrap();
        moved.push(c);
        assert!(moved.len() < 40);
    }
    let rows = db.get_commands(None, None, false).unwrap();
    assert_eq!(rows.len(), moved.len() + 2);
    assert_eq!(rows[0].id, a);
    assert_eq!(rows[1].id, *moved.last().unwrap());
    assert_eq!(rows.last().unwrap().id, b);
    // The earlier rows keep their order: each newer one sits closer to `a`.
    for (k, id) in moved.iter().rev().enumerate() {
        assert_eq!(rows[k + 1].id, *id);
    }
    for w in rows.windows(2) {
        assert!(w[0].position < w[1].position);
    }
    for r in rows.iter().filter(|r| r.id != *moved.last().unwrap()) {
        assert_eq!(r.position % POSITION_GAP, 0);
    }
}

#[test]
fn moves_across_sets_are_refused() {
    let mut db = Database::new();
    let g = db.create_group(&GroupBuilder::new("g").build()).unwrap();
    let a = db.create_command(&CommandBuilder::new("a", "x").build()).unwrap();
    let b = db.create_command(&CommandBuilder::new("b", "x").with_group(g).build()).unwrap();
    assert!(matches!(
        db.move_command_between(a, Some(b), None),
        Err(DatabaseError::InvalidData { field: "parent_id", .. })
    ));
    assert!(matches!(
        db.move_command_between(a, None, None),
        Err(DatabaseError::InvalidData { field: "item_id", .. })
    ));
    assert!(matches!(
        db.move_command_between(a, Some(999), None),
        Err(DatabaseError::NotFound { id: 999, .. })
    ));
}

#[test]
fn cycle_refusal_leaves_store_unchanged() {
    let mut db = Database::new();
    let top = db.create_group(&GroupBuilder::new("top").build()).unwrap();
    let mid = db.create_group(&GroupBuilder::new("mid").with_parent(top).build()).unwrap();
    let low = db.create_group(&GroupBuilder::new("low").with_parent(mid).build()).unwrap();
    let mut g = db.get_group(top).unwrap();
    g.parent_group_id = Some(low);
    let before = db.get_group_tree(top).unwrap().len();
    assert!(matches!(
        db.update_group(&g),
        Err(DatabaseError::CircularReference { group_id, parent_id }) if group_id == top && parent_id == low
    ));
    assert_eq!(db.get_group(top).unwrap().parent_group_id, None);
    assert_eq!(db.get_group_tree(top).unwrap().len(), before);
    assert_eq!(db.get_group_path(low).unwrap(), vec!["top", "mid", "low"]);
}

#[test]
fn group_delete_takes_descendants_and_steps() {
    let mut db = Database::new();
    let top = db.create_group(&GroupBuilder::new("top").build()).unwrap();
    let child = db.create_group(&GroupBuilder::new("child").with_parent(top).build()).unwrap();
    let other = db.create_group(&GroupBuilder::new("other").build()).unwrap();
    let c1 = db.create_command(&CommandBuilder::new("c1", "x").with_group(child).build()).unwrap();
    let c2 = db.create_command(&CommandBuilder::new("c2", "x").with_group(other).build()).unwrap();
    let wf = db.create_workflow(&WorkflowBuilder::new("w").build()).unwrap();
    let step = db
        .create_workflow_step(&tgui_db::builders::WorkflowStepBuilder::new(wf, c1).build())
        .unwrap();
    let run = db
        .create_execution_history(&ExecutionHistoryBuilder::new().with_workflow_step(c1, wf, step).build())
        .unwrap();
    db.delete_group(top).unwrap();
    assert!(db.get_group(child).is_err());
    assert!(db.get_command(c1).is_err());
    assert!(db.get_workflow_step(step).is_err());
    assert!(db.get_execution_history(run).is_err());
    assert!(db.get_command(c2).is_ok());
    assert!(db.get_group(other).is_ok());
    assert!(db.get_workflow(wf).is_ok());
}

#[test]
fn run_lifecycle() {
    let mut db = Database::new();
    let c = db.create_command(&CommandBuilder::new("c", "x").build()).unwrap();
    let id = db.create_execution_history(&ExecutionHistoryBuilder::new().with_command(c).build()).unwrap();
    let h = db.get_execution_history(id).unwrap();
    assert_eq!(h.status, Status::Running);
    assert_eq!(h.completed_at, None);
    assert!(matches!(
        db.update_execution_history_status(id, Status::Paused, None),
        Err(DatabaseError::InvalidData { field: "status", .. })
    ));
    db.update_execution_history_status(id, Status::TimedOut, Some(124)).unwrap();
    let h = db.get_execution_history(id).unwrap();
    assert_eq!(h.status, Status::TimedOut);
    assert_eq!(h.exit_code, Some(124));
    assert!(h.completed_at.is_some());
    assert!(matches!(
        db.update_execution_history_status(id, Status::Success, Some(0)),
        Err(DatabaseError::InvalidData { field: "status", .. })
    ));
    assert!(db.cancel_execution_history(id).is_err());
    let other = db.create_execution_history(&ExecutionHistoryBuilder::new().with_command(c).build()).unwrap();
    db.cancel_execution_history(other).unwrap();
    let h = db.get_execution_history(other).unwrap();
    assert_eq!(h.status, Status::Cancelled);
    assert_eq!(h.exit_code, None);
    assert!(h.completed_at.is_some());
}

#[test]
fn search_ignores_case_and_orders_favourites_first() {
    let mut db = Database::new();
    let a = db.create_command(&CommandBuilder::new("Build", "CARGO build").build()).unwrap();
    let mut fav = CommandBuilder::new("Test", "cargo test").build();
    fav.is_favorite = true;
    let b = db.create_command(&fav).unwrap();
    let _c = db.create_command(&CommandBuilder::new("List", "ls").build()).unwrap();
    let found: Vec<i64> = db.search_commands("Cargo").unwrap().into_iter().map(|c| c.id).collect();
    assert_eq!(found, vec![b, a]);
    assert_eq!(db.search_commands("zzz").unwrap().len(), 0);
}

#[test]
fn category_rules() {
    let mut db = Database::new();
    let cat = db.create_category("Dev", Some("icon"), None).unwrap();
    assert!(matches!(db.create_category("Dev", None, None), Err(DatabaseError::Internal(m)) if m.contains("UNIQUE")));
    assert!(matches!(
        db.create_command(&CommandBuilder::new("c", "x").with_category(cat + 100).build()),
        Err(DatabaseError::ForeignKeyViolation { field: "category_id", .. })
    ));
    let w = db.create_workflow(&WorkflowBuilder::new("w").with_category(cat).build()).unwrap();
    db.delete_category(cat).unwrap();
    assert_eq!(db.get_workflow(w).unwrap().category_id, None);
}

#[test]
fn stored_text_codecs() {
    let args = vec!["test".to_string(), "--release".to_string()];
    assert_eq!(encode_arguments(&args), "[\"test\",\"--release\"]");
    assert_eq!(decode_arguments("[\"a\",\"b c\"]"), vec!["a".to_string(), "b c".to_string()]);
    assert_eq!(decode_arguments("not json"), Vec::<String>::new());
    let env = Some(vec![("K".to_string(), "v".to_string()), ("A".to_string(), "1".to_string())]);
    assert_eq!(encode_env_vars(&env), Some("{\"A\":\"1\",\"K\":\"v\"}".to_string()));
    assert_eq!(encode_env_vars(&None), None);
    assert_eq!(
        decode_env_vars(Some("{\"X\":\"y\"}".to_string())),
        Some(vec![("X".to_string(), "y".to_string())])
    );
    assert_eq!(decode_env_vars(Some("[1,2]".to_string())), None);
    assert_eq!(decode_env_vars(None), None);
}

#[test]
fn well_formed_check() {
    let mut db = Database::new();
    assert!(db.is_well_formed());
    let a = db.create_command(&CommandBuilder::new("a", "x").build()).unwrap();
    assert!(db.is_well_formed());
    db.commands[0].id = db.next_id + 5;
    assert!(!db.is_well_formed());
    db.commands[0].id = a;
    db.commands[0].position = -1;
    assert!(!db.is_well_formed());
    db.commands[0].position = 1000;
    assert!(db.is_well_formed());
    db.commands[0].group_id = Some(999);
    assert!(!db.is_well_formed());
}

#[test]
fn text_timestamps() {
    assert_eq!(parse_timestamp("1970-01-01 00:00:00"), Some(0));
    assert_eq!(parse_timestamp("2024-03-01 12:34:56"), Some(1709296496));
    assert_eq!(parse_timestamp("2000-02-29 00:00:00"), Some(951782400));
    assert_eq!(parse_timestamp("1999-12-31 23:59:59"), Some(946684799));
    assert_eq!(parse_timestamp("2024-13-01 00:00:00"), None);
    assert_eq!(parse_timestamp("1969-12-31 23:59:59"), None);
    assert_eq!(parse_timestamp("2024-03-01T12:34:56"), None);
    assert_eq!(parse_timestamp("2024-3-01 12:34:56"), None);
}

#[test]
fn age_pruning_counts_days() {
    let mut db = Database::new();
    db.set_clock(1_000_000);
    let c = db.create_command(&CommandBuilder::new("c", "x").build()).unwrap();
    let old = db.create_execution_history(&ExecutionHistoryBuilder::new().with_command(c).build()).unwrap();
    db.update_execution_history_status(old, Status::Success, Some(0)).unwrap();
    let running = db.create_execution_history(&ExecutionHistoryBuilder::new().with_command(c).build()).unwrap();
    db.set_clock(1_000_000 + 3 * 86400);
    let recent = db.create_execution_history(&ExecutionHistoryBuilder::new().with_command(c).build()).unwrap();
    db.update_execution_history_status(recent, Status::Failed, Some(1)).unwrap();
    db.cleanup_history_older_than(4).unwrap();
    assert!(db.get_execution_history(old).is_ok());
    db.cleanup_history_older_than(2).unwrap();
    assert!(db.get_execution_history(old).is_err());
    assert!(db.get_execution_history(running).is_ok());
    assert!(db.get_execution_history(recent).is_ok());
    assert_eq!(db.get_execution_history(recent).unwrap().completed_at, Some(1_000_000 + 3 * 86400));
}

#[test]
fn duplicate_env_keys_refused() {
    let mut db = Database::new();
    let mut cmd = CommandBuilder::new("c", "x").build();
    cmd.env_vars = Some(vec![("K".to_string(), "1".to_string()), ("K".to_string(), "2".to_string())]);
    assert!(matches!(db.create_command(&cmd), Err(DatabaseError::InvalidData { field: "env_vars", .. })));
}

#[test]
fn group_delete_spares_groups_outside_the_subtree_even_in_a_loop() {
    let mut db = Database::new();
    let one = db.create_group(&GroupBuilder::new("one").build()).unwrap();
    let two = db.create_group(&GroupBuilder::new("two").with_parent(one).build()).unwrap();
    let three = db.create_group(&GroupBuilder::new("three").build()).unwrap();
    let child = db.create_group(&GroupBuilder::new("child").with_parent(three).build()).unwrap();
    let kept_cmd = db.create_command(&CommandBuilder::new("k", "x").with_group(one).build()).unwrap();
    // A damaged store: groups one and two are each other's parent.
    db.groups.iter_mut().find(|g| g.id == one).unwrap().parent_group_id = Some(two);
    assert!(db.is_well_formed());
    db.delete_group(three).unwrap();
    assert!(db.get_group(child).is_err());
    assert!(db.get_group(one).is_ok());
    assert!(db.get_group(two).is_ok());
    assert!(db.get_command(kept_cmd).is_ok());
}
