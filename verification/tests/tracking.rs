use rsk::hygiene::FieldGap;
use rsk::session_tracker::{session_id_from, ExecutionEntry, SessionError, SessionState};
use rsk::skill_registry::{choose_strategy, ExecutionStrategy};
use rsk::state_manager::{
    mark_step_complete, mark_step_failed, CheckpointManager, ExecutionContext, ExecutionStatus, StateError,
};
use rsk::stats::{AssumptionCheck, ChiSquareInput, EpistemicLevel};
use rsk::engine::{DecisionNode, DecisionTree};
use rsk::strmap::StrMap;
use rsk::value::Value;

fn percent(ctx: &ExecutionContext) -> f32 {
    let (done, total) = ctx.progress_fraction();
    if total == 0 {
        100.0
    } else {
        done as f32 / total as f32 * 100.0
    }
}

#[test]
fn test_context_creation() {
    let ctx = ExecutionContext::new("test-pipeline", 5);
    assert_eq!(ctx.name, "test-pipeline");
    assert_eq!(ctx.total_steps, 5);
    assert_eq!(ctx.status, ExecutionStatus::Created);
    assert!(ctx.completed_steps.is_empty());
    assert!(ctx.failed_steps.is_empty());
}

#[test]
fn test_context_progress() {
    let mut ctx = ExecutionContext::new("test", 4);
    assert_eq!(percent(&ctx), 0.0);
    assert_eq!(ctx.next_step(), Some(0));
    mark_step_complete(&mut ctx, 0, Value::Null, 100);
    assert_eq!(percent(&ctx), 25.0);
    assert_eq!(ctx.next_step(), Some(1));
    mark_step_complete(&mut ctx, 1, Value::Null, 100);
    assert_eq!(percent(&ctx), 50.0);
}

#[test]
fn test_context_completion() {
    let mut ctx = ExecutionContext::new("test", 2);
    assert!(!ctx.is_complete());
    mark_step_complete(&mut ctx, 0, Value::Null, 100);
    assert!(!ctx.is_complete());
    mark_step_complete(&mut ctx, 1, Value::Null, 100);
    assert!(ctx.is_complete());
    assert_eq!(ctx.status, ExecutionStatus::Completed);
}

#[test]
fn test_context_with_failures() {
    let mut ctx = ExecutionContext::new("test", 2);
    mark_step_complete(&mut ctx, 0, Value::Null, 100);
    mark_step_failed(&mut ctx, 1, "Something went wrong", 50);
    assert!(ctx.is_complete());
    assert!(matches!(ctx.status, ExecutionStatus::Failed(_)));
}

#[test]
fn test_skip_step() {
    let mut ctx = ExecutionContext::new("test", 3);
    mark_step_complete(&mut ctx, 0, Value::Null, 100);
    ctx.skip_step(1, "Dependency failed");
    mark_step_complete(&mut ctx, 2, Value::Null, 100);
    assert!(ctx.is_complete());
    assert!(ctx.skipped_steps.contains(&1));
    assert_eq!(ctx.step_results.get("1").unwrap().message, "Skipped: Dependency failed");
}

#[test]
fn test_empty_pipeline() {
    let ctx = ExecutionContext::new("empty", 0);
    assert!(ctx.is_complete());
    assert_eq!(percent(&ctx), 100.0);
    assert_eq!(ctx.next_step(), None);
}

#[test]
fn test_artifacts() {
    let mut ctx = ExecutionContext::new("test", 1);
    ctx.add_artifact("key1", Value::Int(42));
    ctx.add_tag("important");
    ctx.add_tag("important");
    assert!(ctx.artifacts.contains_key("key1"));
    assert!(ctx.tags.contains(&"important".to_string()));
    assert_eq!(ctx.tags.len(), 1);
}

#[test]
fn failed_step_message_when_all_processed() {
    let mut ctx = ExecutionContext::created("id-1".to_string(), "p", 1, 7);
    mark_step_failed(&mut ctx, 0, "boom", 1);
    assert_eq!(ctx.status, ExecutionStatus::Failed("One or more steps failed".to_string()));
    assert_eq!(ctx.step_results.get("0").unwrap().message, "boom");
    assert_eq!(ctx.id, "id-1");
    assert_eq!(ctx.started_at, 7);
}

#[test]
fn repeated_completion_is_recorded_once() {
    let mut ctx = ExecutionContext::new("p", 3);
    mark_step_complete(&mut ctx, 1, Value::Null, 1);
    mark_step_complete(&mut ctx, 1, Value::Int(2), 1);
    assert_eq!(ctx.completed_steps, vec![1]);
    assert_eq!(ctx.next_step(), Some(0));
    assert_eq!(ctx.step_results.get("1").unwrap().output, Value::Int(2));
}

#[test]
fn test_stats() {
    let manager = CheckpointManager::with_dir("/tmp/state");
    let mut ctx1 = manager.create_context("test", 1);
    mark_step_complete(&mut ctx1, 0, Value::Null, 100);
    let ctx2 = manager.create_context("test", 1);
    let stats = manager.stats(&[ctx1, ctx2]);
    assert_eq!(stats.total, 2);
    assert_eq!(stats.completed, 1);
    assert_eq!(stats.created, 1);
}

#[test]
fn test_find_resumable() {
    let mut ctx1 = ExecutionContext::created("a".to_string(), "my-pipeline", 2, 1);
    mark_step_complete(&mut ctx1, 0, Value::Null, 100);
    mark_step_complete(&mut ctx1, 1, Value::Null, 100);
    let mut ctx2 = ExecutionContext::created("b".to_string(), "my-pipeline", 3, 2);
    ctx2.status = ExecutionStatus::Paused;
    let ctx3 = ExecutionContext::created("c".to_string(), "other", 3, 3);
    let listed = vec![ctx1, ctx2, ctx3];
    let found = CheckpointManager::resumable_in(&listed, "my-pipeline").unwrap();
    assert_eq!(listed[found].id, "b");
    assert_eq!(CheckpointManager::resumable_in(&listed, "none"), None);
}

#[test]
fn resumable_prefers_latest_update_and_later_on_tie() {
    let a = ExecutionContext::created("a".to_string(), "p", 1, 5);
    let b = ExecutionContext::created("b".to_string(), "p", 1, 9);
    let c = ExecutionContext::created("c".to_string(), "p", 1, 9);
    let listed = vec![a, b, c];
    assert_eq!(CheckpointManager::resumable_in(&listed, "p"), Some(2));
}

#[test]
fn named_in_keeps_order_of_matching_contexts() {
    let a = ExecutionContext::created("a".to_string(), "p", 1, 5);
    let b = ExecutionContext::created("b".to_string(), "q", 1, 6);
    let c = ExecutionContext::created("c".to_string(), "p", 1, 7);
    let kept = CheckpointManager::named_in(vec![a, b, c], "p");
    let ids: Vec<&str> = kept.iter().map(|x| x.id.as_str()).collect();
    assert_eq!(ids, vec!["a", "c"]);
    assert!(CheckpointManager::named_in(Vec::new(), "p").is_empty());
}

fn mixed_statuses() -> Vec<ExecutionContext> {
    let mut a = ExecutionContext::created("a".to_string(), "p", 1, 5);
    a.status = ExecutionStatus::Failed("disk".to_string());
    let mut b = ExecutionContext::created("b".to_string(), "p", 1, 6);
    b.status = ExecutionStatus::Failed("net".to_string());
    let c = ExecutionContext::created("c".to_string(), "p", 1, 7);
    let mut d = ExecutionContext::created("d".to_string(), "p", 1, 8);
    d.status = ExecutionStatus::Failed("disk".to_string());
    vec![a, b, c, d]
}

#[test]
fn with_status_in_compares_failure_reasons() {
    let failed_disk = CheckpointManager::with_status_in(mixed_statuses(), &ExecutionStatus::Failed("disk".to_string()));
    let ids: Vec<&str> = failed_disk.iter().map(|x| x.id.as_str()).collect();
    assert_eq!(ids, vec!["a", "d"]);
    let created = CheckpointManager::with_status_in(mixed_statuses(), &ExecutionStatus::Created);
    assert_eq!(created.len(), 1);
    assert_eq!(created[0].id, "c");
    assert!(CheckpointManager::with_status_in(mixed_statuses(), &ExecutionStatus::Paused).is_empty());
}

#[test]
fn cleanup_targets_finished_and_old() {
    let mut old_done = ExecutionContext::created("old".to_string(), "p", 0, 1);
    old_done.status = ExecutionStatus::Completed;
    let old_running = ExecutionContext::created("run".to_string(), "p", 0, 1);
    let mut new_done = ExecutionContext::created("new".to_string(), "p", 0, 100);
    new_done.status = ExecutionStatus::Cancelled;
    let ids = CheckpointManager::cleanup_targets(&[old_done, old_running, new_done], 50);
    assert_eq!(ids, vec!["old".to_string()]);
}

#[test]
fn manager_records_and_forgets_paths() {
    let mut m = CheckpointManager::with_dir("/tmp/state");
    assert_eq!(m.state_dir(), "/tmp/state");
    m.record("x", "/tmp/state/x.json".to_string());
    m.record("y", "/tmp/state/y.json".to_string());
    assert_eq!(m.path_of("x").map(|p| p.as_str()), Some("/tmp/state/x.json"));
    assert!(m.forget("x"));
    assert!(!m.forget("x"));
    assert!(m.path_of("x").is_none());
    assert_eq!(m.known_ids(), vec!["y".to_string()]);
}

#[test]
fn id_from_stem_takes_text_after_last_dash() {
    assert_eq!(CheckpointManager::id_from_stem("name-abc-123"), "123");
    assert_eq!(CheckpointManager::id_from_stem("plain"), "plain");
    assert_eq!(CheckpointManager::id_from_stem("trailing-"), "");
}

#[test]
fn state_error_messages() {
    assert_eq!(StateError::NotFound("x".to_string()).message(), "Context not found: x");
    assert_eq!(StateError::IoError("disk".to_string()).message(), "IO error: disk");
}

// ───────────────────────── sessions ─────────────────────────

#[test]
fn test_session_state_new() {
    let state = SessionState::new();
    assert!(!state.session_id.is_empty());
    assert!(state.execution_history.is_empty());
}

#[test]
fn test_add_execution() {
    let mut state = SessionState::new();
    state.add_execution("test-skill", Some("test context"));
    assert_eq!(state.execution_history.len(), 1);
    assert_eq!(state.execution_history[0].skill_name, "test-skill");
    assert_eq!(state.execution_history[0].context, Some("test context".to_string()));
    assert_eq!(state.current_skill, "test-skill");
}

#[test]
fn test_complete_execution() {
    let mut state = SessionState::new();
    state.add_execution("test-skill", None);
    state.complete_execution(Some(100));
    assert_eq!(state.execution_history[0].status, "completed");
    assert_eq!(state.execution_history[0].duration_ms, Some(100));
}

#[test]
fn test_fail_execution() {
    let mut state = SessionState::new();
    state.add_execution("test-skill", Some("initial"));
    state.fail_execution(Some("timeout"));
    assert_eq!(state.execution_history[0].status, "failed");
    assert!(state.execution_history[0].context.as_ref().unwrap().contains("timeout"));
    assert_eq!(state.execution_history[0].context.as_deref(), Some("initial: timeout"));
}

#[test]
fn fail_without_context_says_error() {
    let mut state = SessionState::with_id("s");
    state.add_execution("k", None);
    state.fail_execution(Some("bad"));
    assert_eq!(state.execution_history[0].context.as_deref(), Some("Error: bad"));
}

#[test]
fn test_trim_history() {
    let mut state = SessionState::new();
    for i in 0..10 {
        state.add_execution(&format!("skill-{i}"), None);
    }
    assert_eq!(state.execution_history.len(), 10);
    state.trim_history(5);
    assert_eq!(state.execution_history.len(), 5);
    assert_eq!(state.execution_history[0].skill_name, "skill-5");
}

#[test]
fn test_execution_count() {
    let mut state = SessionState::new();
    state.add_execution("skill-a", None);
    state.add_execution("skill-b", None);
    state.add_execution("skill-a", None);
    state.add_execution("skill-a", None);
    assert_eq!(state.execution_count("skill-a"), 3);
    assert_eq!(state.execution_count("skill-b"), 1);
    assert_eq!(state.execution_count("skill-c"), 0);
}

#[test]
fn test_recent_executions() {
    let mut state = SessionState::new();
    for i in 0..5 {
        state.add_execution(&format!("skill-{i}"), None);
    }
    let recent: Vec<&ExecutionEntry> = state.recent_executions(3);
    assert_eq!(recent.len(), 3);
    assert_eq!(recent[0].skill_name, "skill-4");
    assert_eq!(recent[2].skill_name, "skill-2");
}

#[test]
fn test_complete_empty_history() {
    let mut state = SessionState::new();
    state.complete_execution(Some(100));
    assert!(state.execution_history.is_empty());
}

#[test]
fn session_id_layout() {
    let id = session_id_from(0);
    assert_eq!(id, "deadbeef-cafe-4bab-abcd-5678abcdef01");
    let id2 = session_id_from(u128::MAX);
    assert_eq!(id2.len(), 36);
    assert_eq!(&id2[14..15], "4");
}

#[test]
fn session_error_messages() {
    assert_eq!(SessionError::ParseError("x".to_string()).message(), "Parse error: x");
    assert_eq!(SessionError::NotFound("f".to_string()).message(), "Session file not found: f");
}

// ───────────────────────── registry, stats, hygiene types ─────────────────────────

#[test]
fn strategy_of_skills() {
    assert_eq!(choose_strategy("is-prime", None), ExecutionStrategy::RustIntrinsic);
    assert_eq!(choose_strategy("other", None), ExecutionStrategy::PureLlm);
    assert_eq!(choose_strategy("is-prime", Some(None)), ExecutionStrategy::PureLlm);
    let mut nodes = StrMap::new();
    nodes.insert("check".to_string(), DecisionNode::Return { value: Value::Bool(true) });
    let plain = DecisionTree { start: "check".to_string(), nodes };
    assert_eq!(choose_strategy("x", Some(Some(&plain))), ExecutionStrategy::DeterministicLogic);
    let mut nodes2 = StrMap::new();
    nodes2.insert("ask".to_string(), DecisionNode::LlmFallback { prompt: "p".to_string(), schema: None });
    let llm = DecisionTree { start: "ask".to_string(), nodes: nodes2 };
    assert_eq!(choose_strategy("x", Some(Some(&llm))), ExecutionStrategy::Hybrid);
}

#[test]
fn epistemic_level_names() {
    assert_eq!(EpistemicLevel::L1.as_str(), "L1");
    assert_eq!(EpistemicLevel::L6.as_str(), "L6");
    let check = AssumptionCheck { name: "n".to_string(), passed: true, message: String::new(), severity: "info".to_string() };
    assert!(check.passed);
    let input = ChiSquareInput { a: 1, b: 2, c: 3, d: 4 };
    assert_eq!(input.a + input.b + input.c + input.d, 10);
    let gap = FieldGap { consumer_index: 1, consumer_name: "c".to_string(), field: "f".to_string(), field_type: "int".to_string(), required: true };
    assert!(gap.required);
}

#[test]
fn clock_readings_are_current() {
    let c = ExecutionContext::new("p", 1);
    // After 2020-01-01 and before 2200-01-01, in microseconds.
    assert!(c.started_at > 1_577_836_800_000_000);
    assert!(c.started_at < 7_258_118_400_000_000);
    let mut s = SessionState::new();
    s.add_execution("skill", None);
    let ts = &s.execution_history.last().unwrap().timestamp;
    assert!(ts.starts_with("20"), "{}", ts);
    assert!(ts.contains('T') && ts.ends_with("+00:00"), "{}", ts);
}
