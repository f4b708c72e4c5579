//! When a job is due, and what becomes of its answer.

use joy::schedule::{
    cron_matches, due_now, field_matches, job_of_fields, jobs_from_json, outbox_name, outbox_note,
    session_of, skill_job, Job, Moment,
};
use joy::table::Table;

fn at(y: i32, m: u32, d: u32, hh: u32, mm: u32) -> Moment {
    Moment::new(y, m, d, hh, mm).expect("合法时间")
}

fn job(name: &str, cron: &str) -> Job {
    Job {
        name: name.to_string(),
        cron: cron.to_string(),
        prompt: "做点事".to_string(),
    }
}

#[test]
fn every_minute_matches_everything() {
    assert!(cron_matches("* * * * *", &at(2026, 9, 21, 3, 7)));
}

#[test]
fn a_daily_time_matches_only_that_minute() {
    assert!(cron_matches("0 8 * * *", &at(2026, 9, 21, 8, 0)));
    assert!(!cron_matches("0 8 * * *", &at(2026, 9, 21, 8, 1)));
    assert!(!cron_matches("0 8 * * *", &at(2026, 9, 21, 9, 0)));
}

#[test]
fn steps_ranges_and_lists_all_work() {
    assert!(cron_matches("*/15 * * * *", &at(2026, 9, 21, 0, 30)));
    assert!(!cron_matches("*/15 * * * *", &at(2026, 9, 21, 0, 31)));
    assert!(cron_matches("0 9-17 * * 1-5", &at(2026, 9, 21, 9, 0)));
    assert!(cron_matches("0 9-17 * * 1-5", &at(2026, 9, 25, 17, 0)));
    assert!(
        !cron_matches("0 9-17 * * 1-5", &at(2026, 9, 26, 9, 0)),
        "周六不该触发"
    );
    assert!(cron_matches("0 8,20 * * *", &at(2026, 9, 21, 20, 0)));
    assert!(!cron_matches("0 8,20 * * *", &at(2026, 9, 21, 12, 0)));
    assert!(cron_matches("0 0 * * 7", &at(2026, 9, 27, 0, 0)), "周日");
}

#[test]
fn seven_is_sunday_in_spans_too() {
    let sunday = at(2026, 9, 27, 0, 0);
    assert!(cron_matches("0 0 * * 5-7", &sunday));
    assert!(cron_matches("0 0 * * 7-2", &sunday));
    assert!(cron_matches("0 0 * * 7-2", &at(2026, 9, 29, 0, 0)), "周二");
    assert!(!cron_matches("0 0 * * 7-2", &at(2026, 9, 30, 0, 0)), "周三");
    assert!(cron_matches("0 0 * * 5-7", &at(2026, 9, 26, 0, 0)), "周六");
    assert!(!cron_matches("0 0 * * 5-7", &at(2026, 9, 24, 0, 0)), "周四");
    assert!(!cron_matches("0 0 * * 1-6", &sunday));
    assert!(!field_matches("5-7", 0, 0, 59), "minutes have no Sunday");
}

#[test]
fn a_minute_is_written_in_full() {
    assert_eq!(at(2026, 9, 7, 8, 5).key, "2026-09-07T08:05");
    assert_eq!(at(26, 9, 7, 8, 5).key, "0026-09-07T08:05");
    assert!(Moment::new(2026, 2, 29, 0, 0).is_none());
    assert!(Moment::new(2026, 2, 28, 24, 0).is_none());
    assert!(Moment::new(2026, 2, 28, 23, 60).is_none());
}

#[test]
fn a_malformed_cron_never_fires() {
    assert!(!cron_matches("0 8 * *", &at(2026, 9, 21, 8, 0)), "四字段");
    assert!(!cron_matches("banana", &at(2026, 9, 21, 8, 0)));
    assert!(!cron_matches("0 8 * * 1-", &at(2026, 9, 21, 8, 0)));
}

#[test]
fn the_same_minute_only_fires_once() {
    let jobs = vec![job("brief", "0 8 * * *")];
    let fired: Table<String> = Table::new();
    let first = due_now(&jobs, &at(2026, 9, 21, 8, 0), &fired);
    assert_eq!(first.len(), 1);

    let mut fired: Table<String> = Table::new();
    fired.insert("brief".to_string(), "2026-09-21T08:00".to_string());
    let second = due_now(&jobs, &at(2026, 9, 21, 8, 0), &fired);
    assert!(second.is_empty(), "同一分钟不该触发第二次");
    let later = due_now(&jobs, &at(2026, 9, 21, 8, 1), &fired);
    assert!(later.is_empty());
}

#[test]
fn firing_names_the_file_the_session_and_the_cause() {
    let job = job("tick", "* * * * *");
    assert_eq!(
        outbox_name(&job, "20260921-0900"),
        "schedule-tick-20260921-0900.md"
    );
    let note = outbox_note(&job, "2026-09-21 09:00", "打卡完成。");
    assert!(note.contains("打卡完成。"), "{note}");
    assert!(note.contains("cron '* * * * *'"), "要写明触发来源：{note}");
    assert_eq!(session_of(&job), "schedule:tick");
}

#[test]
fn jobs_load_from_both_skills_and_the_json_file() {
    let (jobs, bad) = jobs_from_json(
        r#"{"jobs":[
            {"name":"standup","cron":"0 9 * * 1-5","prompt":"今天要做什么？"},
            {"name":"broken","cron":"0 9 * * 1-5"}
        ]}"#,
    )
    .expect("能解析");
    assert_eq!(jobs.len(), 1);
    assert_eq!(jobs[0].name, "standup");
    assert_eq!(jobs[0].prompt, "今天要做什么？");
    assert_eq!(bad, 1);

    let weekly = skill_job("weekly-review", "summarize the week", "0 8 * * 1");
    assert_eq!(weekly.cron, "0 8 * * 1");
    assert!(
        weekly.prompt.contains("summarize the week"),
        "技能任务的请求要带上它自己的描述：{}",
        weekly.prompt
    );
}

#[test]
fn a_broken_list_of_jobs_is_an_error() {
    assert!(jobs_from_json("这不是 JSON").is_err());
    let nothing = jobs_from_json("{}").expect("an object without jobs");
    assert_eq!((nothing.0.len(), nothing.1), (0, 0));
}

#[test]
fn a_job_needs_all_its_fields() {
    let text = |t: &str| Some(t.to_string());
    assert!(job_of_fields(text("a"), text("* * * * *"), None).is_none());
    assert!(job_of_fields(text("a"), None, text("p")).is_none());
    assert!(job_of_fields(None, text("* * * * *"), text("p")).is_none());
    assert_eq!(
        job_of_fields(text("a"), text("* * * * *"), text("p")),
        Some(Job {
            name: "a".to_string(),
            cron: "* * * * *".to_string(),
            prompt: "p".to_string(),
        })
    );
}

#[test]
fn a_moment_knows_its_weekday_and_its_minute() {
    let monday = at(2026, 9, 21, 8, 5);
    assert_eq!(monday.weekday, 1);
    assert_eq!(monday.key, "2026-09-21T08:05");
    assert_eq!(at(2026, 9, 27, 0, 0).weekday, 0, "周日");
    assert_eq!(
        (monday.minute, monday.hour, monday.day, monday.month),
        (5, 8, 21, 9)
    );
    assert!(Moment::new(2026, 2, 30, 0, 0).is_none());
    assert!(Moment::new(2026, 1, 1, 24, 0).is_none());
    assert!(Moment::new(2028, 2, 29, 23, 59).is_some());
}

#[test]
fn a_field_is_read_part_by_part() {
    assert!(field_matches("*", 7, 0, 59));
    assert!(field_matches("5-10", 5, 0, 59));
    assert!(field_matches("5-10", 10, 0, 59));
    assert!(!field_matches("5-10", 11, 0, 59));
    assert!(!field_matches("10-5", 7, 0, 59));
    assert!(!field_matches("*/0", 0, 0, 59));
    assert!(!field_matches("", 0, 0, 59));
    assert!(field_matches("7", 0, 0, 6), "周日也写作 7");
    assert!(!field_matches("7", 0, 0, 59));
}

#[test]
fn only_the_jobs_of_this_minute_are_due() {
    let jobs = vec![
        job("a", "0 8 * * *"),
        job("b", "0 9 * * *"),
        job("c", "* * * * *"),
    ];
    let fired: Table<String> = Table::new();
    assert_eq!(due_now(&jobs, &at(2026, 9, 21, 8, 0), &fired), vec![0, 2]);
}
