//! Signing in to a tool server.

use joy::oauth::{
    auth_server, authorize_url, base64url_nopad, callback_code, callback_parameters, client_id,
    discover, endpoints_of_fields, find_header_end, makeshift_bytes, metadata_url, origin, path_of,
    pkce_challenge, pkce_verifier, registration, renewed, resource_urls, sanitise, token_plan,
    tokens_from_response, tokens_of_fields, AuthEndpoints, Registration, StoredAuth, StoredTokens,
    TokenPlan, TokenStore, REDIRECT_URI,
};

fn tokens(expires_at: Option<i64>) -> StoredTokens {
    StoredTokens {
        access_token: "a".into(),
        refresh_token: None,
        expires_at,
    }
}

#[test]
fn server_names_become_safe_filenames() {
    assert_eq!(sanitise("team-memory"), "team-memory");
    assert_eq!(sanitise("../evil"), "___evil");
    assert_eq!(sanitise("a b/c"), "a_b_c");
    assert_eq!(sanitise("a\\b"), "a_b");
    assert_eq!(sanitise("很长的名字").len(), "很长的名字".len());
}

#[test]
fn expired_is_judged_from_the_clock() {
    let now = std::time::SystemTime::now()
        .duration_since(std::time::UNIX_EPOCH)
        .unwrap()
        .as_secs() as i64;
    assert!(!tokens(Some(now + 3600)).expired(now));
    assert!(tokens(Some(now - 10)).expired(now));
    assert!(!tokens(None).expired(now));
}

#[test]
fn pkce_matches_the_rfc_vector() {
    let verifier = "dBjftJeZ4CVP-mB92K27uhbUJU1p1r_wW1gFWFOEjXk";
    assert_eq!(
        pkce_challenge(verifier),
        "E9Melhoa2OwvFrEMTJguCHaoeK1t8URWbuGJSstw-cM"
    );
}

#[test]
fn base64url_avoids_the_url_hostile_alphabet() {
    let encoded = base64url_nopad(&[0xfb, 0xff, 0xbf, 0xff]);
    assert!(
        !encoded.contains('+') && !encoded.contains('/') && !encoded.contains('='),
        "{encoded}"
    );
    assert_eq!(base64url_nopad(&[0x00]).len(), 2);
    assert_eq!(base64url_nopad(&[0x00, 0x00]).len(), 3);
    assert_eq!(base64url_nopad(&[0x00, 0x00, 0x00]).len(), 4);
    assert_eq!(
        pkce_verifier(&makeshift_bytes(12345, 67890)).len(),
        64,
        "48 字节的 base64url 恰好 64 字符"
    );
}

#[test]
fn known_bytes_have_a_known_encoding() {
    assert_eq!(base64url_nopad(b""), "");
    assert_eq!(base64url_nopad(b"f"), "Zg");
    assert_eq!(base64url_nopad(b"fo"), "Zm8");
    assert_eq!(base64url_nopad(b"foo"), "Zm9v");
    assert_eq!(base64url_nopad(b"foobar"), "Zm9vYmFy");
    assert_eq!(base64url_nopad(&[0xfb, 0xff, 0xbf, 0xff]), "-_-__w");
}

#[test]
fn a_store_keeps_its_tokens_and_its_client() {
    let store = TokenStore::new("/home/joy", "demo");
    assert_eq!(store.path(), "/home/joy/mcp-auth/demo.json");
    let auth = store.save_client_info(
        StoredAuth::default(),
        r#"{"client_id":"cid"}"#.to_string(),
    );
    let auth = store.save_tokens(auth, tokens(Some(i64::MAX)));
    assert_eq!(store.tokens(&auth), Some(tokens(Some(i64::MAX))));
    assert_eq!(auth.client_info.as_deref(), Some(r#"{"client_id":"cid"}"#));
    assert!(store.tokens(&StoredAuth::default()).is_none());
}

#[test]
fn addresses_are_taken_apart() {
    assert_eq!(origin("https://h.example:8443/a/b"), "https://h.example:8443");
    assert_eq!(path_of("https://h.example:8443/a/b"), "/a/b");
    assert_eq!(origin("http://h"), "http://h");
    assert_eq!(path_of("http://h"), "");
    let (root, below) = resource_urls("https://h/mcp");
    assert_eq!(root, "https://h/.well-known/oauth-protected-resource");
    assert_eq!(below, "https://h/mcp/.well-known/oauth-protected-resource");
    assert_eq!(
        metadata_url("https://auth.example"),
        "https://auth.example/.well-known/oauth-authorization-server"
    );
}

#[test]
fn the_authorization_server_is_the_first_one_named() {
    let body = r#"{"authorization_servers":["https://auth.example","https://other"]}"#;
    assert_eq!(
        auth_server("https://h/mcp", &Some(body.to_string())),
        "https://auth.example"
    );
    assert_eq!(auth_server("https://h/mcp", &None), "https://h");
}

#[test]
fn metadata_must_name_both_endpoints() {
    let found = discover(
        r#"{"authorization_endpoint":"https://a/authorize","token_endpoint":"https://a/token"}"#,
    )
    .expect("both are there");
    assert_eq!(found.token_endpoint, "https://a/token");
    assert_eq!(found.registration_endpoint, None);
    assert_eq!(
        discover(r#"{"token_endpoint":"https://a/token"}"#),
        Err("元数据里没有 authorization_endpoint".to_string())
    );
    assert_eq!(
        endpoints_of_fields(Some("a".to_string()), None, None),
        Err("元数据里没有 token_endpoint".to_string())
    );
}

#[test]
fn a_client_is_registered_once() {
    let endpoints = AuthEndpoints {
        authorization_endpoint: "a".to_string(),
        token_endpoint: "t".to_string(),
        registration_endpoint: Some("https://a/register".to_string()),
    };
    assert_eq!(
        registration(&Some(r#"{"client_id":"c1"}"#.to_string()), &endpoints),
        Ok(Registration::Known(r#"{"client_id":"c1"}"#.to_string()))
    );
    assert_eq!(
        registration(&None, &endpoints),
        Ok(Registration::Register("https://a/register".to_string()))
    );
    let closed = AuthEndpoints {
        registration_endpoint: None,
        ..endpoints
    };
    assert!(registration(&None, &closed).is_err());
    assert_eq!(
        client_id(r#"{"client_id":"client-123"}"#),
        Ok("client-123".to_string())
    );
    assert_eq!(
        client_id("{}"),
        Err("注册应答里没有 client_id".to_string())
    );
}

#[test]
fn the_authorize_address_carries_everything() {
    assert_eq!(
        authorize_url("https://a/authorize", "c", "r", "s", "h"),
        "https://a/authorize?response_type=code&client_id=c&redirect_uri=r&state=s&code_challenge=h&code_challenge_method=S256"
    );
    assert_eq!(REDIRECT_URI, "http://127.0.0.1:41765/callback");
}

fn pairs(list: &[(&str, &str)]) -> Vec<(String, String)> {
    list.iter()
        .map(|(k, v)| (k.to_string(), v.to_string()))
        .collect()
}

#[test]
fn a_callback_is_read_and_checked() {
    let params =
        callback_parameters("GET /callback?code=abc&state=xyz HTTP/1.1\r\nHost: x\r\n\r\n")
            .expect("a callback");
    assert_eq!(params, pairs(&[("code", "abc"), ("state", "xyz")]));
    assert!(callback_parameters("GET /favicon.ico HTTP/1.1\r\n\r\n").is_none());
    assert_eq!(callback_code(&params, "xyz"), Ok("abc".to_string()));
    assert!(callback_code(&params, "other")
        .unwrap_err()
        .contains("state 对不上"));
    assert_eq!(
        callback_code(&pairs(&[("state", "xyz")]), "xyz"),
        Err("回调里没有 code".to_string())
    );
    assert_eq!(
        callback_code(
            &pairs(&[("error", "denied"), ("error_description", "no")]),
            "xyz"
        ),
        Err("授权失败：denied — no".to_string())
    );
}

#[test]
fn the_end_of_a_header_is_found() {
    assert_eq!(find_header_end(&b"GET /\r\n\r\nbody".to_vec()), Some(5));
    assert_eq!(find_header_end(&b"GET /\r\n".to_vec()), None);
    assert_eq!(find_header_end(&Vec::new()), None);
}

#[test]
fn a_token_answer_is_read() {
    let got = tokens_from_response(
        r#"{"access_token":"at","refresh_token":"rt","expires_in":3600}"#,
        1000,
    )
    .expect("the time fits")
    .expect("a token");
    assert_eq!(
        got,
        StoredTokens {
            access_token: "at".to_string(),
            refresh_token: Some("rt".to_string()),
            expires_at: Some(4600),
        }
    );
    assert_eq!(
        tokens_of_fields(None, None, None, 0),
        Err("token 应答里没有 access_token".to_string())
    );
}

#[test]
fn ensure_token_without_a_login_points_at_the_command() {
    match token_plan(&None, "ghost", 0) {
        TokenPlan::Fail(why) => assert!(why.contains("joy mcp login ghost"), "{why}"),
        other => panic!("{other:?}"),
    }
}

#[test]
fn an_old_token_is_renewed_where_that_can_be_done() {
    assert_eq!(
        token_plan(&Some(tokens(Some(5000))), "s", 1000),
        TokenPlan::Use("a".to_string())
    );
    assert!(matches!(
        token_plan(&Some(tokens(Some(900))), "s", 1000),
        TokenPlan::Fail(_)
    ));
    let with_refresh = StoredTokens {
        refresh_token: Some("rt".to_string()),
        ..tokens(Some(900))
    };
    assert_eq!(
        token_plan(&Some(with_refresh), "s", 1000),
        TokenPlan::Refresh("rt".to_string())
    );
    let fresh = renewed(tokens(Some(9000)), "rt".to_string());
    assert_eq!(fresh.refresh_token.as_deref(), Some("rt"));
    assert_eq!(
        renewed(
            StoredTokens {
                refresh_token: Some("new".to_string()),
                ..tokens(None)
            },
            "rt".to_string()
        )
        .refresh_token
        .as_deref(),
        Some("new")
    );
}

/// Reads letters back, six bits each.
fn decode(text: &str) -> Vec<u8> {
    const LETTERS: &str = "ABCDEFGHIJKLMNOPQRSTUVWXYZabcdefghijklmnopqrstuvwxyz0123456789-_";
    let mut bytes = Vec::new();
    let (mut held, mut bits) = (0u32, 0);
    for letter in text.chars() {
        held = (held << 6) | LETTERS.find(letter).expect("a letter") as u32;
        bits += 6;
        if bits >= 8 {
            bits -= 8;
            bytes.push((held >> bits) as u8);
            held &= (1 << bits) - 1;
        }
    }
    bytes
}

#[test]
fn an_encoding_can_be_read_back() {
    for n in 0..10u8 {
        let bytes: Vec<u8> = (0..n).map(|i| i.wrapping_mul(97).wrapping_add(251)).collect();
        assert_eq!(decode(&base64url_nopad(&bytes)), bytes);
    }
    let all: Vec<u8> = (0..=255).collect();
    assert_eq!(decode(&base64url_nopad(&all)), all);
}
