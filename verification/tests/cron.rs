//! Scheduled prompts.

use bytemaker::cron_scheduler::{
    check_fields, cron_matches, cron_prompt_preview, minute_marker, validate_cron, CancelCronTool,
    CronManager, ListCronsTool, Moment, ScheduleCronTool,
};
use bytemaker::json::Json;
use bytemaker::tools::{AgentKind, PermissionCheck};

fn convert(v: serde_json::Value) -> Json {
    match v {
        serde_json::Value::Null => Json::Null,
        serde_json::Value::Bool(b) => Json::Bool(b),
        serde_json::Value::Number(n) => match (n.as_i64(), n.as_u64()) {
            (Some(i), _) => Json::Int(i),
            (None, Some(u)) => Json::UInt(u),
            (None, None) => Json::Real(n.to_string()),
        },
        serde_json::Value::String(s) => Json::Text(s),
        serde_json::Value::Array(a) => Json::Array(a.into_iter().map(convert).collect()),
        serde_json::Value::Object(o) => {
            Json::Object(o.into_iter().map(|(k, v)| (k, convert(v))).collect())
        }
    }
}

fn json(text: &str) -> Json {
    convert(serde_json::from_str(text).expect("valid JSON"))
}

fn at(month: u32, day: u32, hour: u32, minute: u32) -> Moment {
    Moment { year: 2026, month, day, hour, minute }
}

#[test]
fn validate_cron_all_wildcards() {
    assert!(validate_cron("* * * * *").is_ok());
}

#[test]
fn validate_cron_specific_time() {
    assert!(validate_cron("0 9 * * *").is_ok());
}

#[test]
fn validate_cron_step() {
    assert!(validate_cron("*/5 * * * *").is_ok());
}

#[test]
fn cron_prompt_preview_truncates_multibyte_by_char_not_byte() {
    let prompt = format!("a{}", "你".repeat(80));
    let preview = cron_prompt_preview(&prompt);
    assert_eq!(preview.chars().count(), 60);
    assert!(preview.starts_with('a'));
}

#[test]
fn validate_cron_range() {
    assert!(validate_cron("0 9-17 * * 1-5").is_ok());
}

#[test]
fn validate_cron_list() {
    assert!(validate_cron("0,15,30,45 * * * *").is_ok());
}

#[test]
fn validate_cron_invalid_field_count() {
    assert!(validate_cron("* * * *").is_err());
}

#[test]
fn validate_cron_invalid_range() {
    assert!(validate_cron("60 * * * *").is_err());
}

#[test]
fn validate_cron_invalid_step() {
    assert!(validate_cron("*/0 * * * *").is_err());
}

#[test]
fn cron_matches_wildcard() {
    assert!(cron_matches("* * * * *", &at(8, 17, 9, 30)));
}

#[test]
fn cron_matches_exact() {
    assert!(cron_matches("30 * * * *", &at(8, 17, 9, 30)));
    assert!(!cron_matches("30 * * * *", &at(8, 17, 9, 31)));
}

#[test]
fn cron_matches_step() {
    assert!(cron_matches("*/5 * * * *", &at(8, 17, 9, 30)));
    assert!(!cron_matches("*/5 * * * *", &at(8, 17, 9, 31)));
}

#[test]
fn cron_matches_range() {
    assert!(cron_matches("9-17 * * * *", &at(8, 17, 9, 12)));
    assert!(!cron_matches("9-17 * * * *", &at(8, 17, 9, 8)));
    assert!(!cron_matches("9-17 * * * *", &at(8, 17, 9, 18)));
}

#[test]
fn cron_matches_list() {
    assert!(cron_matches("0,15,30,45 * * * *", &at(8, 17, 9, 30)));
    assert!(!cron_matches("0,15,30,45 * * * *", &at(8, 17, 9, 10)));
}

#[test]
fn cron_matches_daily() {
    let time = at(8, 19, 9, 0);
    assert!(cron_matches("0 9 * * *", &time));
    assert!(!cron_matches("0 10 * * *", &time));
}

#[test]
fn cron_matches_weekday() {
    let time = at(8, 17, 9, 0);
    assert!(cron_matches("0 9 * * 1", &time));
    assert!(!cron_matches("0 9 * * 6", &time));
}

#[test]
fn cron_matches_day_or_weekday() {
    let time = at(8, 17, 9, 0);
    assert!(cron_matches("0 9 17 * *", &time));
    assert!(cron_matches("0 9 * * 1", &time));
    assert!(!cron_matches("0 9 18 * *", &time));
    assert!(!cron_matches("0 9 * * 2", &time));
}

#[test]
fn schedule_and_list() {
    let mut manager = CronManager::new("/work");
    let job = manager.schedule("0 9 * * *", "run tests", true, false).unwrap();
    assert!(job.id.starts_with("cron_"));
    assert_eq!(job.cron, "0 9 * * *");
    assert_eq!(job.prompt, "run tests");

    let jobs = manager.list();
    assert_eq!(jobs.len(), 1);
    assert_eq!(jobs[0].id, job.id);
}

#[test]
fn schedule_invalid_cron() {
    let mut manager = CronManager::new("/work");
    assert!(manager.schedule("* * *", "test", true, false).is_err());
}

#[test]
fn schedule_empty_prompt() {
    let mut manager = CronManager::new("/work");
    assert!(manager.schedule("0 9 * * *", "", true, false).is_err());
}

#[test]
fn cancel_existing_job() {
    let mut manager = CronManager::new("/work");
    let job = manager.schedule("0 9 * * *", "run tests", true, false).unwrap();
    let result = manager.cancel(&job.id);
    assert!(result.is_ok());
    assert_eq!(manager.list().len(), 0);
}

#[test]
fn cancel_nonexistent_job() {
    let mut manager = CronManager::new("/work");
    let result = manager.cancel("cron_deadbeef");
    assert!(result.is_err());
    assert!(result.unwrap_err().contains("not found"));
}

#[test]
fn save_and_load_durable() {
    let mut manager1 = CronManager::new("/work");
    let job = manager1.schedule("0 9 * * *", "run tests", true, true).unwrap();
    assert_eq!(manager1.list().len(), 1);
    assert!(manager1.unsaved());
    let saved = manager1.save_durable();
    assert!(manager1.unsaved());
    manager1.mark_saved();
    assert!(!manager1.unsaved());
    drop(manager1);

    let mut manager2 = CronManager::new("/work");
    let loaded = manager2.load_durable(&saved);
    assert_eq!(loaded.loaded, 1);

    let jobs = manager2.list();
    assert_eq!(jobs.len(), 1);
    assert_eq!(jobs[0].id, job.id);
    assert_eq!(jobs[0].cron, job.cron);
}

#[test]
fn consume_queue() {
    let mut manager = CronManager::new("/work");
    let job = manager.schedule("0 9 * * *", "run tests", true, false).unwrap();
    let report = manager.tick(&at(8, 17, 9, 0));
    assert_eq!(report.fired.len(), 1);
    assert!(manager.has_queue());

    let jobs = manager.consume_queue();
    assert_eq!(jobs.len(), 1);
    assert_eq!(jobs[0].id, job.id);

    assert_eq!(manager.consume_queue().len(), 0);
}

#[test]
fn acknowledge_recurring_job() {
    let mut manager = CronManager::new("/work");
    let job = manager.schedule("0 9 * * *", "run tests", true, false).unwrap();
    manager.tick(&at(8, 17, 9, 0));
    assert!(manager.list()[0].pending_delivery);

    manager.acknowledge_jobs(&[job]);

    let jobs = manager.list();
    assert_eq!(jobs.len(), 1);
    assert!(!jobs[0].pending_delivery);
}

#[test]
fn acknowledge_oneshot_job() {
    let mut manager = CronManager::new("/work");
    let job = manager.schedule("0 9 * * *", "run tests", false, false).unwrap();
    manager.tick(&at(8, 17, 9, 0));

    manager.acknowledge_jobs(&[job]);

    assert_eq!(manager.list().len(), 0);
}

#[test]
fn a_job_fires_once_a_minute() {
    let mut manager = CronManager::new("/work");
    manager.schedule("* * * * *", "run tests", true, false).unwrap();
    let now = at(8, 17, 9, 0);
    assert_eq!(minute_marker(&now), "2026-08-17 09:00");
    assert_eq!(manager.tick(&now).fired.len(), 1);
    let jobs = manager.consume_queue();
    manager.acknowledge_jobs(&jobs);
    assert_eq!(manager.tick(&now).fired.len(), 0);
    assert_eq!(manager.tick(&at(8, 17, 9, 1)).fired.len(), 1);
}

#[test]
fn jobs_that_were_not_delivered_come_back() {
    let mut manager = CronManager::new("/work");
    manager.schedule("* * * * *", "one", true, false).unwrap();
    manager.schedule("* * * * *", "two", true, false).unwrap();
    manager.tick(&at(8, 17, 9, 0));
    let jobs = manager.consume_queue();
    assert_eq!(jobs.len(), 2);
    manager.restore_jobs(&jobs);
    let again = manager.consume_queue();
    assert_eq!(again.len(), 2);
    assert_eq!(again[0].id, jobs[0].id);
    assert_eq!(again[1].id, jobs[1].id);
}

#[test]
fn loading_tells_of_what_it_does_not_take() {
    let mut manager = CronManager::new("/work");
    let job = manager.schedule("0 9 * * *", "run tests", true, true).unwrap();
    let mut broken = job.dup();
    broken.id = "cron_00000000".to_string();
    broken.cron = "not a cron".to_string();
    let mut other = CronManager::new("/work");
    let report = other.load_durable(&[job, broken]);
    assert_eq!(report.loaded, 1);
    assert_eq!(report.notes.len(), 1);
}

#[test]
fn identifiers_are_drawn_until_one_is_free() {
    let mut manager = CronManager::new("/work");
    let first = manager.schedule_with("0 9 * * *", "a", true, false, None, &[7]).unwrap();
    assert_eq!(first.id, "cron_00000007");
    assert_eq!(manager.generate_id(&[7, 7, 255]), Some("cron_000000ff".to_string()));
    assert_eq!(manager.generate_id(&[7]), None);
}

#[test]
fn the_fault_of_an_expression_is_told() {
    assert!(check_fields("* * * * *", None).is_ok());
    assert!(check_fields("* * * * *", Some("broken".to_string())).unwrap_err().contains("broken"));
    assert!(check_fields("* *", None).is_err());
}

#[test]
fn the_tools_schedule_list_and_cancel() {
    let mut manager = CronManager::new("/work");
    let input = json(r#"{"cron": "0 9 * * *", "prompt": "run tests"}"#);
    let told = ScheduleCronTool.execute(&mut manager, &input);
    let id = manager.list()[0].id.clone();
    assert!(told.contains(&id), "got: {told}");
    let listed = ListCronsTool.execute(&manager);
    assert!(listed.contains(&id) && listed.contains("run tests"), "got: {listed}");
    let gone = CancelCronTool.execute(&mut manager, &json(&format!(r#"{{"job_id": "{id}"}}"#)));
    assert!(gone.contains(&id), "got: {gone}");
    assert!(manager.list().is_empty());
    assert!(ScheduleCronTool.available_for(AgentKind::Lead));
    assert!(!ScheduleCronTool.available_for(AgentKind::Subagent));
}

#[test]
fn every_call_of_the_cron_tools_may_run() {
    assert!(matches!(ScheduleCronTool.check_permission(&Json::Null), PermissionCheck::Pass));
    assert!(matches!(ListCronsTool.check_permission(&Json::Null), PermissionCheck::Pass));
    assert!(matches!(CancelCronTool.check_permission(&Json::Null), PermissionCheck::Pass));
}

#[test]
fn a_saved_id_that_comes_twice_is_one_job() {
    let mut manager = CronManager::new("/work");
    let job = manager.schedule_with("0 9 * * *", "a", true, true, None, &[7]).unwrap();
    let mut newer = job.dup();
    newer.prompt = "b".to_string();
    let report = manager.load_durable(&[job, newer]);
    assert_eq!(report.loaded, 2);
    let jobs = manager.list();
    assert_eq!(jobs.len(), 1);
    assert_eq!(jobs[0].prompt, "b");
    assert!(manager.cancel("cron_00000007").is_ok());
    assert!(manager.list().is_empty());
}
