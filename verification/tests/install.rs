//! Installing skills and keeping them up to date.

use joy::install::{
    count_failures, entry_of_fields, fetch_failed, install, install_outcome, installed_version,
    needs_update, parse_index, settle_entry, IndexEntry, Outcome, Steps,
};

const GOOD: &str = "---\nname: weekly-review\ndescription: summarize the week\nversion: 1.1.0\n---\n1. pull episodes\n";

fn entry(name: &str, version: &str, url: &str) -> IndexEntry {
    IndexEntry {
        name: name.to_string(),
        version: version.to_string(),
        url: url.to_string(),
    }
}

#[test]
fn a_bad_entry_is_skipped_not_fatal() {
    let (entries, warnings) = parse_index(
        r#"{"skills":[
            {"name":"a","version":"1.0.0","url":"https://x/a.md"},
            {"name":"b","url":"https://x/b.md"},
            {"name":"c","version":"1.0.0"}
        ]}"#,
    )
    .expect("解析");
    assert_eq!(entries.len(), 1);
    assert_eq!(entries[0].name, "a");
    assert_eq!(warnings.len(), 2, "坏条目要逐条说明：{warnings:?}");

    assert!(parse_index("这不是 JSON").is_err());
    assert!(parse_index(r#"{"nope":[]}"#).is_err());
}

#[test]
fn version_comparison_never_downgrades() {
    assert!(needs_update(None, "1.0.0"), "没装过就装");
    assert!(needs_update(Some("1.0.0"), "1.1.0"));
    assert!(needs_update(Some("1.9.0"), "1.10.0"), "按段比大小");
    assert!(!needs_update(Some("1.1.0"), "1.1.0"));
    assert!(!needs_update(Some("2.0.0"), "1.9.0"), "不降级");
    assert!(!needs_update(Some("2024-05"), "2024-06"));
}

#[test]
fn install_validates_before_touching_the_disk() {
    let wrong = install(
        "/h",
        "weekly-review",
        "---\nname: other\ndescription: x\n---\nb",
        false,
        "1",
    );
    assert!(wrong.is_err(), "名不对版要拒绝");
    assert!(install("/h", "weekly-review", "没有 frontmatter", false, "1").is_err());
    assert!(install("/h", "../evil", GOOD, false, "1").is_err());

    assert_eq!(
        install("/h", "weekly-review", GOOD, false, "1"),
        Ok(Steps::Fresh {
            dir: "/h/skills/weekly-review".to_string(),
            file: "/h/skills/weekly-review/SKILL.md".to_string(),
        })
    );
    assert_eq!(
        installed_version(&Some(GOOD.to_string())).as_deref(),
        Some("1.1.0")
    );
    assert!(installed_version(&None).is_none());
}

#[test]
fn a_reinstall_backs_up_the_previous_version() {
    let second = GOOD.replace("version: 1.1.0", "version: 1.2.0");
    match install("/h", "weekly-review", &second, true, "77").expect("第二版") {
        Steps::Replace {
            target,
            staging,
            backup,
            file,
        } => {
            assert_eq!(target, "/h/skills/weekly-review");
            assert!(staging.starts_with("/h/skills/.staging/"), "{staging}");
            assert_eq!(backup, "/h/skills/.backup/weekly-review-77");
            assert!(file.ends_with("SKILL.md"), "{file}");
        }
        other => panic!("{other:?}"),
    }
    assert_eq!(
        installed_version(&Some(second)).as_deref(),
        Some("1.2.0")
    );
}

#[test]
fn update_all_installs_skips_and_reports_failures() {
    let installed = installed_version(&Some(GOOD.to_string()));
    let same = settle_entry(&entry("weekly-review", "1.1.0", "same"), &installed);
    assert!(matches!(same, Some(Outcome::UpToDate { .. })), "{same:?}");

    let good = entry("roadmap", "2.0.0", "good");
    assert_eq!(settle_entry(&good, &None), None);
    let steps = install(
        "/h",
        "roadmap",
        "---\nname: roadmap\ndescription: plan quarters\nversion: 2.0.0\n---\nsteps",
        false,
        "1",
    );
    let fresh = install_outcome(&good, None, steps.map(|_| ()));
    assert!(matches!(fresh, Outcome::Installed { .. }));

    let broken = install("/h", "broken", "这不是 SKILL.md", false, "1").map(|_| ());
    let bad = install_outcome(&entry("broken", "1.0.0", "bad-content"), None, broken);
    assert!(matches!(bad, Outcome::Failed { .. }), "坏内容要报告");
    let missing = fetch_failed(&entry("missing", "1.0.0", "unreachable"), "404");
    assert!(matches!(missing, Outcome::Failed { .. }), "取不回要报告");

    let outcomes = vec![same.unwrap(), fresh, bad, missing];
    assert_eq!(outcomes.iter().filter(|o| o.ok()).count(), 2);
    assert_eq!(count_failures(&outcomes), 2);
    assert!(
        outcomes.iter().all(|o| !o.line().is_empty()),
        "每条都要有一句能打印给人看的话"
    );
}

#[test]
fn blanks_and_zeros_do_not_make_a_version_newer() {
    for offered in ["1.0 ", " 1.0", "01.0"] {
        let settled = settle_entry(&entry("a", offered, "u"), &Some("1.0".to_string()));
        assert!(
            matches!(settled, Some(Outcome::UpToDate { .. })),
            "{offered:?}: {settled:?}"
        );
    }
    let apart = settle_entry(&entry("a", "x", "u"), &Some("y".to_string()));
    assert!(matches!(apart, Some(Outcome::Ahead { .. })), "{apart:?}");
    assert!(needs_update(Some("1.0"), " 1.1 "));
    assert!(!needs_update(Some("1.1"), "1.0"));
}

#[test]
fn a_newer_local_skill_is_left_alone() {
    let ahead = settle_entry(&entry("a", "1.0.0", "u"), &Some("2.0.0".to_string()));
    match ahead {
        Some(outcome) => {
            assert_eq!(outcome.line(), "· a：本地 2.0.0 比索引里的 1.0.0 新，没动");
            assert!(outcome.ok());
        }
        None => panic!("nothing is to be fetched"),
    }
    assert_eq!(
        settle_entry(&entry("a", "2.1.0", "u"), &Some("2.0.0".to_string())),
        None
    );
    assert_eq!(
        Outcome::Installed {
            name: "a".to_string(),
            from: Some("1.0".to_string()),
            to: "1.1".to_string(),
        }
        .line(),
        "✓ a：1.0 → 1.1"
    );
    assert_eq!(
        fetch_failed(&entry("a", "1", "u"), "404").line(),
        "✗ a：取回失败：404"
    );
    assert_eq!(entry_of_fields(Some("a".to_string()), None, None), None);
}
