//! Tool servers: how they are reached, and what their tools are called.

use joy::mcp::{
    auth_hint, call_text, check_tools, login_needed, model_safe_name, model_safe_name_unique,
    not_connected, plan_server, resolve, skipped_call, timed_out, tool_description,
    unreachable_server, with_token, Breaker, BreakerPolicy, CallOutcome, Plan, ServerSpec,
    Transport,
};
use joy::mcp_cmd::{login_of_fields, login_target, server_line, server_lines};
use joy::table::Table;

fn no_env() -> Table<String> {
    Table::new()
}

#[test]
fn model_safe_name_keeps_what_the_provider_accepts() {
    assert_eq!(model_safe_name("notes", "remember"), "notes_remember");
    assert_eq!(
        model_safe_name("team-memory", "memory.remember"),
        "team-memory_memory_remember"
    );
    let long = model_safe_name("s", &"x".repeat(200));
    assert_eq!(long.len(), 64);
    assert!(!long.starts_with('_'), "截断后不该以 _ 开头：{long}");
}

#[test]
fn config_refuses_two_transports_and_two_credentials() {
    let both_transports = ServerSpec {
        name: "x".to_string(),
        url: Some("https://h/mcp".to_string()),
        command: Some("npx".to_string()),
        ..ServerSpec::default()
    };
    assert!(resolve(&both_transports, &no_env())
        .unwrap_err()
        .contains("只能挑一种传输"));

    let both_creds = ServerSpec {
        name: "x".to_string(),
        url: Some("https://h/mcp".to_string()),
        auth_env: Some("K".to_string()),
        oauth: Some(true),
        ..ServerSpec::default()
    };
    assert!(resolve(&both_creds, &no_env())
        .unwrap_err()
        .contains("只能挑一种"));

    let neither = ServerSpec {
        name: "x".to_string(),
        ..ServerSpec::default()
    };
    assert!(resolve(&neither, &no_env()).is_err());
}

#[test]
fn oauth_resolves_to_anonymous_http_the_token_layer_sits_above() {
    let spec = ServerSpec {
        name: "x".to_string(),
        url: Some("https://h/mcp".to_string()),
        oauth: Some(true),
        ..ServerSpec::default()
    };
    match resolve(&spec, &no_env()).expect("oauth 是合法配置") {
        Transport::Http { token, .. } => assert!(token.is_none()),
        other => panic!("oauth 该走 Http 传输：{other:?}"),
    }
}

#[test]
fn a_named_but_unset_variable_is_refused_before_connecting() {
    let spec = ServerSpec {
        name: "x".to_string(),
        url: Some("https://h/mcp".to_string()),
        auth_env: Some("NOTES_API_KEY".to_string()),
        ..ServerSpec::default()
    };
    let message = resolve(&spec, &no_env()).unwrap_err();
    assert!(message.contains("NOTES_API_KEY"), "{message}");

    let mut vars = no_env();
    vars.insert("NOTES_API_KEY".to_string(), "s3cret".to_string());
    let found = resolve(&spec, &vars).expect("有值就连");
    assert_eq!(
        found,
        Transport::Http {
            url: "https://h/mcp".to_string(),
            token: Some("s3cret".to_string()),
        }
    );
}

#[test]
fn stdio_and_http_are_chosen_by_shape() {
    let stdio = ServerSpec {
        name: "fs".to_string(),
        command: Some("npx".to_string()),
        args: Some(vec!["-y".to_string(), "server".to_string()]),
        env: Some(vec![("A".to_string(), "1".to_string())]),
        ..ServerSpec::default()
    };
    assert_eq!(
        resolve(&stdio, &no_env()).expect("stdio"),
        Transport::Stdio {
            command: "npx".to_string(),
            args: vec!["-y".to_string(), "server".to_string()],
            env: Some(vec![("A".to_string(), "1".to_string())]),
        }
    );

    let anonymous = ServerSpec {
        name: "pub".to_string(),
        url: Some("https://h/mcp".to_string()),
        ..ServerSpec::default()
    };
    assert_eq!(
        resolve(&anonymous, &no_env()).expect("http"),
        Transport::Http {
            url: "https://h/mcp".to_string(),
            token: None,
        }
    );
}

#[test]
fn the_auth_hint_names_what_the_caller_can_check() {
    let anonymous = Transport::Http {
        url: "https://h/mcp".to_string(),
        token: None,
    };
    let hint = auth_hint(&anonymous).expect("该给提示");
    assert!(hint.contains("https://h/mcp"));
    assert!(hint.contains("auth_env"));
    let stdio = Transport::Stdio {
        command: "npx".to_string(),
        args: vec![],
        env: None,
    };
    assert!(auth_hint(&stdio).is_none());
}

#[test]
fn two_servers_that_collide_get_distinct_names() {
    let mut taken: Vec<String> = Vec::new();
    let (first, renamed) = model_safe_name_unique("a", "b_c", &mut taken);
    assert_eq!(first, "a_b_c");
    assert!(!renamed);

    let (second, renamed) = model_safe_name_unique("a_b", "c", &mut taken);
    assert!(renamed, "重名要改");
    assert_ne!(second, first, "不能覆盖先到的那个");
    assert!(second.starts_with("a_b_c_"), "{second}");
    assert!(second.len() <= 64, "仍然要满足 64 字符上限：{second}");
}

#[test]
fn a_renamed_long_tool_name_still_fits() {
    let mut taken: Vec<String> = Vec::new();
    let long = "x".repeat(200);
    let (first, _) = model_safe_name_unique("s", &long, &mut taken);
    let (second, renamed) = model_safe_name_unique("s", &long, &mut taken);
    assert!(renamed);
    assert!(second.len() <= 64, "{second}");
    assert_ne!(first, second);
}

#[test]
fn a_failing_server_gets_circuit_broken() {
    let mut breaker = Breaker::new(BreakerPolicy {
        failures: 2,
        cooldown_ms: 150,
    });
    assert!(breaker.admits(0));
    breaker.has_failed(0);
    assert!(breaker.admits(1));
    breaker.has_failed(10);
    assert!(!breaker.admits(11), "熔断期间一次都不该发出去");
    assert!(!breaker.admits(159));
    assert!(breaker.admits(230), "冷却过后要允许探一次");
    breaker.has_failed(230);
    assert!(!breaker.admits(231), "探针失败就再断开");
    breaker.succeeded();
    assert!(breaker.admits(232));
    let skipped = skipped_call("flaky", "do");
    assert!(skipped.contains("断路器"), "{skipped}");
    assert!(skipped.contains("被跳过"), "{skipped}");
}

#[test]
fn calls_end_in_text() {
    assert_eq!(
        call_text("s", "t", CallOutcome::Text("fine".to_string())),
        "fine"
    );
    assert_eq!(
        call_text("s", "t", CallOutcome::Failed("boom".to_string())),
        "MCP 调用 s_t 失败：boom"
    );
    assert_eq!(
        call_text("s", "t", CallOutcome::TimedOut),
        "MCP 调用 s_t 失败：超过 30 秒没有回话"
    );
    assert_eq!(timed_out("握手"), "握手（超过 30 秒）");
    assert_eq!(not_connected("ghost"), "MCP 服务器 'ghost' 没有连上。");
}

#[test]
fn a_server_that_cannot_be_used_is_skipped_with_a_reason() {
    let nameless = ServerSpec {
        command: Some("npx".to_string()),
        ..ServerSpec::default()
    };
    assert!(matches!(plan_server(&nameless, &no_env()), Plan::Skip(_)));
    let odd = ServerSpec {
        name: "odd".to_string(),
        ..ServerSpec::default()
    };
    match plan_server(&odd, &no_env()) {
        Plan::Skip(why) => assert!(why.contains("odd"), "{why}"),
        other => panic!("{other:?}"),
    }
    let good = ServerSpec {
        name: "good".to_string(),
        url: Some("https://h".to_string()),
        oauth: Some(true),
        ..ServerSpec::default()
    };
    match plan_server(&good, &no_env()) {
        Plan::Connect { target, login } => {
            assert!(login);
            assert_eq!(
                with_token(target, "t".to_string()),
                Transport::Http {
                    url: "https://h".to_string(),
                    token: Some("t".to_string()),
                }
            );
        }
        other => panic!("{other:?}"),
    }
    assert!(login_needed("good", "why").contains("需要登录"));
    let lines = unreachable_server(
        "good",
        &Transport::Http {
            url: "https://h".to_string(),
            token: None,
        },
        "refused",
    );
    assert_eq!(lines.len(), 2);
    assert_eq!(lines[0], "MCP 服务器 'good' 连不上：refused");
}

#[test]
fn a_server_without_tools_is_refused() {
    assert_eq!(check_tools(1), Ok(()));
    assert_eq!(check_tools(0), Err("一个工具都没报上来".to_string()));
    assert_eq!(
        tool_description("notes", &Some("does it".to_string())),
        "[MCP:notes] does it"
    );
    assert_eq!(tool_description("notes", &None), "[MCP:notes] ");
}

#[test]
fn servers_are_listed_one_to_a_line() {
    let config = r#"{"servers": [
        {"name": "fs", "command": "npx", "args": ["-y", "s"]},
        {"name": "notes", "url": "https://h/mcp", "auth_env": "K"},
        {"name": "team", "url": "https://t/mcp", "oauth": true},
        {}
    ]}"#;
    let lines = server_lines(config);
    assert_eq!(lines.len(), 4);
    assert_eq!(lines[0], "- fs  command npx  鉴权：无");
    assert!(lines[1].starts_with("- notes  url https://h/mcp  鉴权："));
    assert!(lines[1].contains('K'));
    assert_eq!(
        lines[2],
        "- team  url https://t/mcp  鉴权：oauth（跑 joy mcp login 登录）"
    );
    assert_eq!(lines[3], server_line(None, None, None, None, None));
    assert!(server_lines("{}").is_empty());
}

#[test]
fn only_a_remote_server_can_be_signed_in_to() {
    let config = r#"{"servers": [{"name": "fs", "command": "npx"},
                                 {"name": "team", "url": "https://t/mcp", "oauth": true},
                                 {"name": "open", "url": "https://o/mcp"}]}"#;
    let team = login_target(config, "team").expect("team");
    assert_eq!((team.url.as_str(), team.declared), ("https://t/mcp", true));
    let open = login_target(config, "open").expect("open");
    assert!(!open.declared);
    assert!(login_target(config, "fs").unwrap_err().contains("url 型"));
    assert_eq!(
        login_target(config, "ghost"),
        Err("mcp.json 里没有叫 'ghost' 的服务器".to_string())
    );
    assert!(login_of_fields("x", None, Some(true)).is_err());
}

#[test]
fn a_name_of_underscores_is_still_a_name() {
    let name = model_safe_name("server", &"_".repeat(80));
    assert_eq!(name, "_");
    let dots = model_safe_name("s", &".".repeat(64));
    assert_eq!(dots, "_");
    assert_eq!(model_safe_name("", ""), "_");
}
