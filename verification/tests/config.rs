//! Settings: where they come from, and how a patch changes them.

use joy::config::{
    apply_patch, commit_config, env_bool, env_int, join_path, non_empty, patch_path,
    remember_command, validate_patch, write_config, Settings, SettingsPatch,
};
use joy::table::Table;

fn vars(pairs: &[(&str, &str)]) -> Table<String> {
    let mut out = Table::new();
    for (name, value) in pairs {
        out.insert(name.to_string(), value.to_string());
    }
    out
}

fn known() -> Vec<String> {
    vec!["anthropic".to_string(), "deepseek".to_string()]
}

#[test]
fn defaults_match_the_documented_values() {
    let s = Settings::default();
    assert_eq!(s.provider, "anthropic");
    assert_eq!(s.max_iterations, 10);
    assert_eq!(s.max_tokens, 8192);
    assert_eq!(s.history_turns, 12);
    assert_eq!(s.consolidate_every, 6);
    assert_eq!(s.retrieval_top_k, 4);
    assert_eq!(s.home, ".joy");
}

#[test]
fn reads_joy_provider_from_env() {
    let s = Settings::from_env(&vars(&[("JOY_PROVIDER", "deepseek")]));
    assert_eq!(s.provider, "deepseek", "应当读到 JOY_PROVIDER");
}

#[test]
fn empty_env_value_is_treated_as_unset() {
    let s = Settings::from_env(&vars(&[("JOY_MODEL", "")]));
    assert_eq!(s.model, None);
}

#[test]
fn bool_accepts_the_three_spellings() {
    for (v, expected) in [
        ("1", true),
        ("true", true),
        ("yes", true),
        ("0", false),
        ("", false),
    ] {
        let key = "JOY_CONFIG_TEST_BOOL_XYZ";
        assert_eq!(env_bool(&vars(&[(key, v)]), key), expected, "{key}={v}");
    }
}

#[test]
fn view_is_complete() {
    let s = Settings::default();
    let v = s.view();
    assert_eq!(v.provider, "anthropic");
    assert_eq!(v.max_tokens, 8192);
}

#[test]
fn apply_patch_overlays_and_clears_empty_overrides() {
    let mut s = Settings::default();
    let patch = SettingsPatch {
        provider: Some("deepseek".to_string()),
        model: Some("   ".to_string()),
        max_tokens: Some(4096),
        graph_workflows: Some(true),
        ..Default::default()
    };
    apply_patch(&patch, &mut s);
    assert_eq!(s.provider, "deepseek");
    assert_eq!(s.model, None);
    assert_eq!(s.max_tokens, 4096);
    assert!(s.graph_workflows);
}

#[test]
fn merge_newer_keeps_newer_values_and_keeps_older_ones_otherwise() {
    let mut base = SettingsPatch {
        max_iterations: Some(5),
        provider: Some("anthropic".to_string()),
        ..Default::default()
    };
    let newer = SettingsPatch {
        max_iterations: Some(9),
        graph_workflows: Some(true),
        ..Default::default()
    };
    base.merge_newer(&newer);
    assert_eq!(base.max_iterations, Some(9));
    assert_eq!(base.provider.as_deref(), Some("anthropic"));
    assert_eq!(base.graph_workflows, Some(true));
}

#[test]
fn an_empty_patch_leaves_the_settings_alone() {
    let mut s = Settings::default();
    s.model = Some("m".to_string());
    let before = s.clone();
    let patch = SettingsPatch::default();
    assert!(patch.is_empty());
    apply_patch(&patch, &mut s);
    assert_eq!(s, before);
    assert!(!SettingsPatch {
        experimental: Some(false),
        ..Default::default()
    }
    .is_empty());
}

#[test]
fn two_patches_apply_as_one() {
    let first = SettingsPatch {
        model: Some("a".to_string()),
        max_tokens: Some(1),
        ..Default::default()
    };
    let second = SettingsPatch {
        model: Some("b".to_string()),
        history_turns: Some(3),
        ..Default::default()
    };
    let mut one = Settings::default();
    apply_patch(&first, &mut one);
    apply_patch(&second, &mut one);
    let mut both = first.clone();
    both.merge_newer(&second);
    let mut other = Settings::default();
    apply_patch(&both, &mut other);
    assert_eq!(one, other);
    assert_eq!(other.model.as_deref(), Some("b"));
    assert_eq!(other.max_tokens, 1);
}

#[test]
fn a_write_lasts() {
    let saved = SettingsPatch {
        max_tokens: Some(1000),
        ..Default::default()
    };
    let patch = SettingsPatch {
        provider: Some("deepseek".to_string()),
        ..Default::default()
    };
    let mut now = Settings::default();
    apply_patch(&saved, &mut now);
    let (kept, live) = write_config(saved, &patch, now, Ok(()), &known()).expect("a good patch");
    assert_eq!(live.provider, "deepseek");
    let mut again = Settings::default();
    apply_patch(&kept, &mut again);
    assert_eq!(again, live);
}

#[test]
fn a_write_that_is_not_kept_changes_nothing() {
    let planned = Settings {
        max_tokens: 7,
        ..Settings::default()
    };
    let mut settings = Settings::default();
    let mut resolved = Some("old");
    let failed = commit_config(
        &mut settings,
        &mut resolved,
        planned.clone(),
        Err("disk full".to_string()),
        Some("new"),
    );
    assert_eq!(failed, Err("写 settings.json 失败：disk full".to_string()));
    assert_eq!(settings, Settings::default());
    assert_eq!(resolved, Some("old"));

    let done = commit_config(
        &mut settings,
        &mut resolved,
        planned.clone(),
        Ok(()),
        None,
    );
    assert_eq!(done, Ok(()));
    assert_eq!(settings, planned);
    assert_eq!(resolved, None, "the old model is not used on");
}

#[test]
fn a_bad_patch_is_rejected_without_touching_anything() {
    let patch = SettingsPatch {
        provider: Some("nobody".to_string()),
        ..Default::default()
    };
    assert!(validate_patch(&patch, Ok(()), &known()).is_err());
    let why = write_config(
        SettingsPatch::default(),
        &patch,
        Settings::default(),
        Ok(()),
        &known(),
    )
    .expect_err("an unknown provider");
    assert!(why.contains("nobody"), "{why}");
    let out_of_bounds = validate_patch(
        &SettingsPatch::default(),
        Err("maxTokens 太小".to_string()),
        &known(),
    );
    assert_eq!(out_of_bounds, Err("maxTokens 太小".to_string()));
    let fine = SettingsPatch {
        provider: Some("deepseek".to_string()),
        ..Default::default()
    };
    assert_eq!(validate_patch(&fine, Ok(()), &known()), Ok(()));
}

#[test]
fn variables_are_trimmed_and_read_as_numbers() {
    let v = vars(&[("A", "  x "), ("N", "7"), ("BAD", "seven"), ("E", "  ")]);
    assert_eq!(joy::config::env(&v, "A").as_deref(), Some("x"));
    assert_eq!(joy::config::env(&v, "E"), None);
    assert_eq!(joy::config::env(&v, "NONE"), None);
    assert_eq!(env_int(&v, "N", 1), 7);
    assert_eq!(env_int(&v, "BAD", 1), 1);
    assert_eq!(env_int(&v, "NONE", 2), 2);
    assert_eq!(non_empty(" y "), Some("y".to_string()));
    assert_eq!(non_empty(" \t"), None);
}

#[test]
fn a_remembered_command_joins_the_list_once() {
    let s = Settings {
        exec_allow: vec!["ls *".to_string()],
        ..Settings::default()
    };
    let patch = remember_command(&s, "git status").expect("a new command");
    assert_eq!(
        patch.exec_allow,
        Some(vec!["ls *".to_string(), "git status".to_string()])
    );
    let mut later = s.clone();
    apply_patch(&patch, &mut later);
    assert!(remember_command(&later, "git status").is_none());
}

#[test]
fn paths_are_joined_with_one_slash() {
    assert_eq!(join_path("/home/a", "b"), "/home/a/b");
    assert_eq!(join_path("/home/a/", "b"), "/home/a/b");
    assert_eq!(patch_path("/h"), join_path("/h", "settings.json"));
}

#[test]
fn config_write_lands_in_memory_and_survives_a_reboot() {
    let patch = SettingsPatch {
        max_iterations: Some(20),
        provider: Some("deepseek".to_string()),
        ..Default::default()
    };
    let (saved, live) = write_config(
        SettingsPatch::default(),
        &patch,
        Settings::default(),
        Ok(()),
        &known(),
    )
    .expect("config/write 不该报错");
    let view = live.view();
    assert_eq!(view.max_iterations, 20);
    assert_eq!(view.provider, "deepseek");
    assert_eq!(live.max_iterations, 20);
    assert_eq!(live.provider, "deepseek");
    assert!(!saved.is_empty(), "补丁必须落盘");

    let mut again = Settings::default();
    apply_patch(&saved, &mut again);
    assert_eq!(again.max_iterations, 20);
    assert_eq!(again.provider, "deepseek");
}

#[test]
fn a_goal_gets_five_rounds_unless_said_otherwise() {
    assert_eq!(Settings::default().goal_max_rounds, 5);
    assert_eq!(Settings::from_env(&vars(&[])).goal_max_rounds, 5);
    let set = |value| Settings::from_env(&vars(&[("JOY_GOAL_MAX_ROUNDS", value)]));
    assert_eq!(set("2").goal_max_rounds, 2);
    assert_eq!(set("many").goal_max_rounds, 5);
}
