//! The commands on servers of tools.

use vstd::prelude::*;

use crate::json::{
    bool_at, count_at, json_bool_at, json_count_at, json_text_at, list_len, place, place_of,
    text_at,
};
use crate::text::{decimal, finishes, lemma_occurs, lemma_occurs_on, occurs, opt_text, same, views};

verus! {

/// How a configured server is listed.
pub open spec fn server_text(
    name: Option<Seq<char>>,
    url: Option<Seq<char>>,
    command: Option<Seq<char>>,
    oauth: Option<bool>,
    auth_env: Option<Seq<char>>,
) -> Seq<char> {
    "- "@ + (match name {
        Some(n) => n,
        None => "(没名字)"@,
    }) + "  "@ + (match (url, command) {
        (Some(u), _) => "url "@ + u,
        (None, Some(c)) => "command "@ + c,
        (None, None) => "(不知道连什么)"@,
    }) + "  鉴权："@ + (if oauth == Some(true) {
        "oauth（跑 joy mcp login 登录）"@
    } else {
        match auth_env {
            Some(a) => a,
            None => "无"@,
        }
    })
}

pub fn server_line(
    name: Option<String>,
    url: Option<String>,
    command: Option<String>,
    oauth: Option<bool>,
    auth_env: Option<String>,
) -> (r: String)
    ensures
        r@ == server_text(
            opt_text(name),
            opt_text(url),
            opt_text(command),
            oauth,
            opt_text(auth_env),
        ),
{
    let name = match name {
        Some(n) => n,
        None => "(没名字)".to_owned(),
    };
    let target = match (url, command) {
        (Some(u), _) => {
            let mut t = "url ".to_owned();
            t.append(u.as_str());
            t
        },
        (None, Some(c)) => {
            let mut t = "command ".to_owned();
            t.append(c.as_str());
            t
        },
        (None, None) => "(不知道连什么)".to_owned(),
    };
    let by_oauth = match oauth {
        Some(b) => b,
        None => false,
    };
    let auth = if by_oauth {
        "oauth（跑 joy mcp login 登录）".to_owned()
    } else {
        match auth_env {
            Some(a) => a,
            None => "无".to_owned(),
        }
    };
    let mut t = "- ".to_owned();
    t.append(name.as_str());
    t.append("  ");
    t.append(target.as_str());
    t.append("  鉴权：");
    t.append(auth.as_str());
    t
}

pub open spec fn listed_server(config: Seq<char>, k: nat) -> Seq<char> {
    server_text(
        json_text_at(config, place_of("/servers"@, k, "name"@)),
        json_text_at(config, place_of("/servers"@, k, "url"@)),
        json_text_at(config, place_of("/servers"@, k, "command"@)),
        json_bool_at(config, place_of("/servers"@, k, "oauth"@)),
        json_text_at(config, place_of("/servers"@, k, "auth_env"@)),
    )
}

/// A line for each server of a configuration, which is JSON.
pub fn server_lines(config: &str) -> (r: Vec<String>)
    ensures
        views(r@) == Seq::new(
            list_len(json_count_at(config@, "/servers"@)),
            |i: int| listed_server(config@, i as nat),
        ),
{
    let n: usize = match count_at(config, "/servers") {
        Some(n) => n,
        None => 0,
    };
    let ghost all = Seq::new(
        list_len(json_count_at(config@, "/servers"@)),
        |i: int| listed_server(config@, i as nat),
    );
    let mut r: Vec<String> = Vec::new();
    let mut i: usize = 0;
    assert(views(r@) =~= all.take(0));
    while i < n
        invariant
            i <= n,
            n == all.len(),
            all == Seq::new(
                list_len(json_count_at(config@, "/servers"@)),
                |i: int| listed_server(config@, i as nat),
            ),
            views(r@) == all.take(i as int),
        decreases n - i,
    {
        let ghost before = views(r@);
        let line = server_line(
            text_at(config, place("/servers", i, "name").as_str()),
            text_at(config, place("/servers", i, "url").as_str()),
            text_at(config, place("/servers", i, "command").as_str()),
            bool_at(config, place("/servers", i, "oauth").as_str()),
            text_at(config, place("/servers", i, "auth_env").as_str()),
        );
        assert(line@ == all[i as int]);
        r.push(line);
        assert(views(r@) =~= before.push(line@));
        assert(all.take(i + 1) =~= before.push(line@));
        i += 1;
    }
    assert(all.take(n as int) =~= all);
    r
}

/// The place of the first server of a name, from `k` on.
pub open spec fn server_from(config: Seq<char>, n: nat, name: Seq<char>, k: nat) -> Option<nat>
    decreases n - k,
{
    if k >= n {
        None
    } else if json_text_at(config, place_of("/servers"@, k, "name"@)) == Some(name) {
        Some(k)
    } else {
        server_from(config, n, name, k + 1)
    }
}

/// A server that can be signed in to.
#[derive(Debug, Clone, PartialEq, Eq)]
pub struct LoginTarget {
    pub url: String,
    /// Whether its configuration says that it is signed in to.
    pub declared: bool,
}

pub fn login_of_fields(name: &str, url: Option<String>, oauth: Option<bool>) -> (r: Result<
    LoginTarget,
    String,
>)
    ensures
        match url {
            Some(u) => r == Ok::<LoginTarget, String>(
                LoginTarget { url: u, declared: oauth == Some(true) },
            ),
            None => r matches Err(e) && e@ == "服务器 '"@ + name@
                + "' 不是 url 型的 —— 只有远程服务器能 OAuth 登录"@,
        },
{
    match url {
        Some(url) => {
            let declared = match oauth {
                Some(b) => b,
                None => false,
            };
            Ok(LoginTarget { url, declared })
        },
        None => {
            let mut why = "服务器 '".to_owned();
            why.append(name);
            why.append("' 不是 url 型的 —— 只有远程服务器能 OAuth 登录");
            Err(why)
        },
    }
}

/// The server of a name that is to be signed in to. `config` is JSON.
pub fn login_target(config: &str, name: &str) -> (r: Result<LoginTarget, String>)
    ensures
        match server_from(config@, list_len(json_count_at(config@, "/servers"@)), name@, 0) {
            None => r matches Err(e) && e@ == "mcp.json 里没有叫 '"@ + name@ + "' 的服务器"@,
            Some(k) => match json_text_at(config@, place_of("/servers"@, k, "url"@)) {
                Some(u) => r matches Ok(t) && t.url@ == u && t.declared == (json_bool_at(
                    config@,
                    place_of("/servers"@, k, "oauth"@),
                ) == Some(true)),
                None => r matches Err(e) && e@ == "服务器 '"@ + name@
                    + "' 不是 url 型的 —— 只有远程服务器能 OAuth 登录"@,
            },
        },
{
    let n: usize = match count_at(config, "/servers") {
        Some(n) => n,
        None => 0,
    };
    let ghost count = list_len(json_count_at(config@, "/servers"@));
    let mut k: usize = 0;
    while k < n
        invariant
            k <= n,
            n == count,
            count == list_len(json_count_at(config@, "/servers"@)),
            server_from(config@, count, name@, 0) == server_from(config@, count, name@, k as nat),
        decreases n - k,
    {
        match text_at(config, place("/servers", k, "name").as_str()) {
            Some(found) => {
                if same(found.as_str(), name) {
                    return login_of_fields(
                        name,
                        text_at(config, place("/servers", k, "url").as_str()),
                        bool_at(config, place("/servers", k, "oauth").as_str()),
                    );
                }
            },
            None => {},
        }
        k += 1;
    }
    let mut why = "mcp.json 里没有叫 '".to_owned();
    why.append(name);
    why.append("' 的服务器");
    Err(why)
}

/// A server is listed with its name, with how it is reached and with how it is signed
/// in to.
pub proof fn a_listed_server_is_told_in_full(
    name: Seq<char>,
    url: Seq<char>,
    command: Seq<char>,
    auth: Seq<char>,
)
    ensures
        ({
            let t = server_text(Some(name), Some(url), Some(command), None, Some(auth));
            occurs(t, name) && occurs(t, "url "@ + url) && finishes(t, auth)
        }),
        ({
            let t = server_text(Some(name), None, Some(command), None, None);
            occurs(t, name) && occurs(t, "command "@ + command) && finishes(t, "无"@)
        }),
        finishes(
            server_text(Some(name), Some(url), None, Some(true), Some(auth)),
            "oauth（跑 joy mcp login 登录）"@,
        ),
        finishes(server_text(Some(name), Some(url), None, Some(false), Some(auth)), auth),
{
    lemma_server(name, "url "@ + url, auth);
    lemma_server(name, "command "@ + command, "无"@);
    lemma_server(name, "url "@ + url, "oauth（跑 joy mcp login 登录）"@);
}

proof fn lemma_server(name: Seq<char>, reach: Seq<char>, auth: Seq<char>)
    ensures
        ({
            let t = "- "@ + name + "  "@ + reach + "  鉴权："@ + auth;
            occurs(t, name) && occurs(t, reach) && finishes(t, auth)
        }),
{
    let s1 = "- "@ + name;
    let s2 = s1 + "  "@;
    let s3 = s2 + reach;
    let s4 = s3 + "  鉴权："@;
    lemma_occurs_on("- "@, name, name);
    lemma_occurs_on(s1, name, "  "@);
    lemma_occurs_on(s2, name, reach);
    lemma_occurs_on(s3, name, "  鉴权："@);
    lemma_occurs_on(s3, reach, "  鉴权："@);
    lemma_occurs_on(s4, name, auth);
    lemma_occurs_on(s4, reach, auth);
    lemma_occurs(s4, auth, Seq::empty());
    assert(s4 + auth + Seq::<char>::empty() =~= s4 + auth);
}

/// A server is found under its name; of several with one name the first counts.
pub proof fn a_server_is_found_by_name(config: Seq<char>, n: nat, name: Seq<char>, k: nat, j: nat)
    requires
        k <= j < n,
    ensures
        match server_from(config, n, name, k) {
            Some(at) => {
                &&& k <= at < n
                &&& json_text_at(config, place_of("/servers"@, at, "name"@)) == Some(name)
                &&& j < at ==> json_text_at(config, place_of("/servers"@, j, "name"@)) != Some(name)
            },
            None => json_text_at(config, place_of("/servers"@, j, "name"@)) != Some(name),
        },
    decreases n - k,
{
    if json_text_at(config, place_of("/servers"@, k, "name"@)) != Some(name) {
        if k < j {
            a_server_is_found_by_name(config, n, name, k + 1, j);
        } else if k + 1 < n {
            a_server_is_found_by_name(config, n, name, k + 1, k + 1);
        }
    }
}

/// A server is listed from the fields of its own entry.
pub proof fn a_server_is_listed_from_its_entry(config: Seq<char>, k: nat)
    ensures
        ({
            let at = "/servers/"@ + decimal(k);
            listed_server(config, k) == server_text(
                json_text_at(config, at + "/name"@),
                json_text_at(config, at + "/url"@),
                json_text_at(config, at + "/command"@),
                json_bool_at(config, at + "/oauth"@),
                json_text_at(config, at + "/auth_env"@),
            )
        }),
{
    reveal_strlit("/servers/");
    reveal_strlit("/servers");
    reveal_strlit("/");
    reveal_strlit("/name");
    reveal_strlit("name");
    reveal_strlit("/url");
    reveal_strlit("url");
    reveal_strlit("/command");
    reveal_strlit("command");
    reveal_strlit("/oauth");
    reveal_strlit("oauth");
    reveal_strlit("/auth_env");
    reveal_strlit("auth_env");
    let at = "/servers/"@ + decimal(k);
    assert(place_of("/servers"@, k, "name"@) =~= at + "/name"@);
    assert(place_of("/servers"@, k, "url"@) =~= at + "/url"@);
    assert(place_of("/servers"@, k, "command"@) =~= at + "/command"@);
    assert(place_of("/servers"@, k, "oauth"@) =~= at + "/oauth"@);
    assert(place_of("/servers"@, k, "auth_env"@) =~= at + "/auth_env"@);
}

} // verus!
