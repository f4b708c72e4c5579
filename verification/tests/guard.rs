//! When the stall guard speaks up, and what it does to a result.

use joy::guard::{for_model, reminder, should_stub, stub, GuardReport, GuardVerdict, StallGuard};

fn feed(guard: &mut StallGuard, name: &str, args: &str, output: &str) -> GuardVerdict {
    guard.observe(name, args, output)
}

#[test]
fn three_identical_calls_in_a_row_trip_the_guard() {
    let mut guard = StallGuard::new();
    let args = r#"{"subject":"alex"}"#;

    assert!(
        feed(&mut guard, "save_note", args, "已记住").is_ok(),
        "第 1 次：还早"
    );
    assert!(
        feed(&mut guard, "save_note", args, "已记住").is_ok(),
        "第 2 次：可能是复核"
    );
    let verdict = feed(&mut guard, "save_note", args, "已记住");
    assert_eq!(verdict, GuardVerdict::Repeated { times: 3 });
    assert_eq!(guard.hits(), 1);
    assert!(guard.last_note().is_some());

    let mut guard = StallGuard::new();
    for i in 0..3 {
        feed(
            &mut guard,
            "save_note",
            &format!("{{\"subject\":{i}}}"),
            "已记住",
        );
    }
    assert_eq!(guard.hits(), 0, "参数不同不该触发");
}

#[test]
fn an_alternating_batch_is_caught_even_though_it_never_repeats_consecutively() {
    let mut guard = StallGuard::new();
    let a = r#"{"q":"a"}"#;
    let b = r#"{"q":"b"}"#;

    feed(&mut guard, "search_memory", a, "结果 A");
    feed(&mut guard, "search_memory", b, "结果 B");
    feed(&mut guard, "search_memory", a, "结果 A");
    let verdict = feed(&mut guard, "search_memory", b, "结果 B");
    assert_eq!(verdict, GuardVerdict::Cyclic { period: 2 });

    let mut guard = StallGuard::new();
    for _ in 0..2 {
        feed(&mut guard, "t", r#"{"i":1}"#, "r1");
        feed(&mut guard, "t", r#"{"i":2}"#, "r2");
        feed(&mut guard, "t", r#"{"i":3}"#, "r3");
    }
    assert_eq!(guard.hits(), 1, "A,B,C 重复两遍要触发一次");
}

#[test]
fn pure_repetition_is_not_reported_as_a_cycle() {
    let mut guard = StallGuard::new();
    let args = r#"{"x":1}"#;
    feed(&mut guard, "t", args, "同一结果");
    feed(&mut guard, "t", args, "同一结果");
    assert_eq!(guard.hits(), 0, "两遍重复不该报循环");
}

#[test]
fn only_long_repeated_results_are_replaced_by_a_stub() {
    let short = "很短的结果";
    let long = "x".repeat(600);
    let args = r#"{"path":"/tmp/a"}"#;

    let repeated = GuardVerdict::Repeated { times: 3 };
    let text = for_model(short, "read", args, &repeated);
    assert!(text.contains(short), "短结果不该被换掉：{text}");
    assert!(text.contains("[guard]"), "但提醒要加上：{text}");

    let twice = GuardVerdict::Repeated { times: 2 };
    let text = for_model(&long, "read", args, &twice);
    assert!(text.contains("第 2 次相同调用"), "{text}");
    assert!(text.contains("/tmp/a"), "桩里要有参数预览：{text}");
    assert!(!text.contains("xxxx"), "长正文该被省略：{text}");
    let text = for_model(&long, "read", args, &GuardVerdict::Repeated { times: 1 });
    assert!(text.contains("xxxx"), "第一次重复仍给全文：{}", text.len());
}

#[test]
fn a_clean_run_returns_the_output_untouched() {
    let output = "一切正常";
    assert_eq!(for_model(output, "t", "{}", &GuardVerdict::Fine), output);
    assert!(reminder(&GuardVerdict::Fine).is_none());
}

#[test]
fn a_new_result_counts_as_progress() {
    let mut guard = StallGuard::new();
    feed(&mut guard, "poll", "{}", "10%");
    feed(&mut guard, "poll", "{}", "20%");
    assert!(feed(&mut guard, "poll", "{}", "30%").is_ok());
    assert_eq!(guard.hits(), 0);
    assert_eq!(guard.last_note(), None);
}

#[test]
fn a_repetition_goes_on_being_counted() {
    let mut guard = StallGuard::new();
    for times in 1..12u32 {
        let verdict = feed(&mut guard, "t", "{}", "same");
        if times < 3 {
            assert_eq!(verdict, GuardVerdict::Fine);
        } else {
            assert_eq!(verdict, GuardVerdict::Repeated { times });
        }
    }
    assert_eq!(guard.hits(), 9);
    let report = GuardReport::close(&guard);
    assert_eq!(report.hits, 9);
    assert_eq!(report.note, guard.last_note());
    assert_eq!(
        GuardReport::default(),
        GuardReport {
            hits: 0,
            note: None
        }
    );
}

#[test]
fn a_short_result_is_never_stubbed() {
    assert!(!should_stub(&"x".repeat(500), 1));
    assert!(should_stub(&"x".repeat(600), 2));
    assert!(!should_stub("short", 9));
    assert!(stub("read", "{\"a\":1}", 4).contains("第 4 次相同调用"));
}
