//! Background jobs: the ring of their output, and who may see what.

use joy::jobs::{outbox_path, outbox_text, Jobs, Ring};

#[test]
fn an_overflowing_ring_drops_the_oldest_and_says_so() {
    let mut ring = Ring::new(8);
    ring.push(b"0123456789");

    let (text, cursor, lossy) = ring.read_from(0);
    assert!(lossy, "从 0 读就是要丢东西的");
    assert_eq!(text, "23456789", "留最近的");
    assert_eq!(cursor, 10, "cursor 是绝对位置");
    assert_eq!(ring.total(), 10);

    let (text, cursor, lossy) = ring.read_from(cursor);
    assert!(text.is_empty() && !lossy);
    ring.push(b"ab");
    let (text, _, lossy) = ring.read_from(cursor);
    assert_eq!(text, "ab");
    assert!(!lossy, "接着读不该被算成丢失");
}

#[test]
fn a_single_huge_write_keeps_only_the_tail() {
    let mut ring = Ring::new(4);
    ring.push(b"abcdefghij");
    let (text, cursor, lossy) = ring.read_from(0);
    assert_eq!(text, "ghij");
    assert!(lossy);
    assert_eq!(cursor, 10);
}

#[test]
fn bytes_that_are_no_text_are_shown_as_such() {
    let mut ring = Ring::new(16);
    ring.push(&[b'a', 0xff, b'b']);
    assert_eq!(ring.read_from(0).0, "a\u{fffd}b");
    assert_eq!(ring.snapshot(), vec![b'a', 0xff, b'b']);
    assert_eq!(ring.dropped(), 0);
}

#[test]
fn a_cursor_beyond_the_end_reads_nothing() {
    let mut ring = Ring::new(4);
    ring.push(b"ab");
    let (text, cursor, lossy) = ring.read_from(9);
    assert_eq!((text.as_str(), cursor, lossy), ("", 2, false));
}

#[test]
fn reading_on_gives_each_byte_once() {
    let mut ring = Ring::new(64);
    ring.push(b"one ");
    let (first, cursor, _) = ring.read_from(0);
    ring.push(b"two");
    let (second, cursor, lossy) = ring.read_from(cursor);
    assert_eq!(format!("{first}{second}"), "one two");
    assert_eq!(cursor, 7);
    assert!(!lossy);
}

fn one_job(owner: &str, command: &str) -> (Jobs, String) {
    let mut jobs = Jobs::new();
    let id = jobs.reserve();
    jobs.started(&id, owner, command);
    (jobs, id)
}

#[test]
fn a_job_runs_reads_and_lands_in_the_outbox() {
    let (mut jobs, id) = one_job("s1", "echo 第一行 && echo 第二行");
    jobs.wrote(&id, "第一行\n".as_bytes());
    jobs.wrote(&id, "第二行\n".as_bytes());
    jobs.finished(&id, 0);

    let read = jobs.output("s1", &id, 0).expect("读得到");
    assert!(!read.running, "echo 两条应该已经跑完：{read:?}");
    assert_eq!(read.exit_code, Some(0), "{read:?}");
    assert!(read.text.contains("第一行"), "{read:?}");
    assert!(read.text.contains("第二行"), "{read:?}");

    let again = jobs.output("s1", &id, read.cursor).expect("读得到");
    assert!(again.text.is_empty(), "接着读不该重复给：{again:?}");

    let text = outbox_text(&id, "echo 第一行", 0, &"第一行\n".as_bytes().to_vec());
    assert!(text.contains(&id) && text.contains("第一行"), "{text}");
    assert_eq!(
        outbox_path("/h", &id),
        format!("/h/outbox/jobs/{id}.txt")
    );
}

#[test]
fn another_session_cannot_touch_the_job() {
    let (mut jobs, id) = one_job("mine", "echo 私有");

    assert!(
        jobs.output("someone-else", &id, 0).is_err(),
        "别人的作业不该读得到"
    );
    assert!(
        jobs.kill("someone-else", &id).is_err(),
        "别人的作业不该停得掉"
    );
    assert!(jobs.list("someone-else").is_empty(), "列表里也不该有");
    assert_eq!(jobs.list("mine").len(), 1);
}

#[test]
fn a_running_job_can_be_killed() {
    let (mut jobs, id) = one_job("s1", "echo 起来 && sleep 30");
    let read = jobs.output("s1", &id, 0).expect("读得到");
    assert!(read.running, "{read:?}");

    assert!(jobs.kill("s1", &id).expect("停得掉"), "本来就还在跑");
    assert!(!jobs.kill("s1", &id).expect("再停一次"), "已经停了");
}

#[test]
fn a_list_shows_what_became_of_each_job() {
    let mut jobs = Jobs::new();
    let a = jobs.reserve();
    let b = jobs.reserve();
    assert_ne!(a, b);
    jobs.started(&a, "s", "first");
    jobs.started(&b, "s", "second");
    jobs.wrote(&b, b"12345");
    jobs.finished(&b, 3);
    let list = jobs.list("s");
    assert_eq!(list.len(), 2);
    let done = list.iter().find(|j| j.id == b).expect("b");
    assert_eq!(
        (done.command.as_str(), done.running, done.exit_code, done.bytes),
        ("second", false, Some(3), 5)
    );
    assert!(jobs.output("s", "no-such-job", 0).is_err());
}

#[test]
fn jobs_are_listed_in_the_order_of_their_start() {
    let mut jobs = Jobs::new();
    for i in 0..12 {
        let id = jobs.reserve();
        let owner = if i == 5 { "other" } else { "s" };
        jobs.started(&id, owner, &format!("command {i}"));
    }
    let ids: Vec<String> = jobs.list("s").into_iter().map(|j| j.id).collect();
    assert_eq!(
        ids,
        ["j1", "j2", "j3", "j4", "j5", "j7", "j8", "j9", "j10", "j11", "j12"]
    );
    assert_eq!(jobs.list("other").len(), 1);
    assert!(jobs.list("nobody").is_empty());
}

#[test]
fn text_comes_back_as_it_was_written() {
    let words = "你好 jobs ✓";
    let mut ring = Ring::new(64);
    ring.push(words.as_bytes());
    assert_eq!(ring.read_from(0).0, words);
    let (mut jobs, id) = one_job("s", "echo");
    jobs.wrote(&id, words.as_bytes());
    assert_eq!(jobs.output("s", &id, 0).expect("it is theirs").text, words);
}
