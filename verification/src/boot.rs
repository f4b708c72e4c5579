//! What is said when the service comes up.

use vstd::prelude::*;

use crate::text::{
    a_joined_text_holds_its_parts, decimal, join, joined, lemma_occurs, lemma_occurs_within,
    occurs, signed, to_decimal, to_signed, views,
};

verus! {

/// How commands may be run.
#[derive(Debug, Clone, PartialEq, Eq)]
pub struct ExecPolicy {
    /// Whether commands can be confined.
    pub sandbox: bool,
    pub network: bool,
    pub allow: Vec<String>,
    /// Whether a command that no rule lets through is asked about.
    pub asks: bool,
    pub approval_timeout_secs: i64,
    /// Further places that commands may write to.
    pub writable_roots: Vec<String>,
}

pub open spec fn policy_text(p: ExecPolicy) -> Seq<char> {
    "(joy) 执行工具已启用：沙箱 "@ + (if p.sandbox {
        "可用"@
    } else {
        "不可用（命令会被拒绝执行）"@
    }) + "，"@ + (if p.network {
        "可联网"@
    } else {
        "沙箱内断网（JOY_EXEC_NETWORK=1 可开）"@
    }) + "，放行规则："@ + (if p.allow@.len() == 0 {
        "空（什么都不放行）"@
    } else {
        joined(views(p.allow@), ", "@)
    }) + (if p.asks {
        "，没匹配上时问你（"@ + signed(p.approval_timeout_secs as int) + "秒没人答就拒绝）"@
    } else {
        "，没匹配上直接拒绝（JOY_APPROVAL=on-request 可以改成问一句）"@
    }) + (if p.writable_roots@.len() == 0 {
        ""@
    } else {
        "，额外可写根："@ + joined(views(p.writable_roots@), ", "@)
    })
}

/// The line that tells how commands may be run.
pub fn exec_banner(p: &ExecPolicy) -> (r: String)
    ensures
        r@ == policy_text(*p),
{
    let approval = if p.asks {
        let mut t = "，没匹配上时问你（".to_owned();
        t.append(to_signed(p.approval_timeout_secs).as_str());
        t.append("秒没人答就拒绝）");
        t
    } else {
        "，没匹配上直接拒绝（JOY_APPROVAL=on-request 可以改成问一句）".to_owned()
    };
    let allow = if p.allow.len() == 0 {
        "空（什么都不放行）".to_owned()
    } else {
        join(&p.allow, ", ")
    };
    let extra = if p.writable_roots.len() == 0 {
        "".to_owned()
    } else {
        let mut t = "，额外可写根：".to_owned();
        t.append(join(&p.writable_roots, ", ").as_str());
        t
    };
    let mut t = "(joy) 执行工具已启用：沙箱 ".to_owned();
    t.append(
        if p.sandbox {
            "可用"
        } else {
            "不可用（命令会被拒绝执行）"
        },
    );
    t.append("，");
    t.append(
        if p.network {
            "可联网"
        } else {
            "沙箱内断网（JOY_EXEC_NETWORK=1 可开）"
        },
    );
    t.append("，放行规则：");
    t.append(allow.as_str());
    t.append(approval.as_str());
    t.append(extra.as_str());
    t
}

/// The line that tells which servers of tools were reached; none where none was.
pub fn servers_banner(servers: &Vec<String>, tools: usize) -> (r: Option<String>)
    ensures
        if servers@.len() == 0 {
            r is None
        } else {
            r matches Some(t) && t@ == "(joy) MCP：接上 "@ + decimal(servers@.len()) + " 个服务器（"@
                + decimal(tools as nat) + " 个工具）："@ + joined(views(servers@), ", "@)
        },
{
    let n: usize = servers.len();
    if n == 0 {
        return None;
    }
    let mut t = "(joy) MCP：接上 ".to_owned();
    t.append(to_decimal(n as u64).as_str());
    t.append(" 个服务器（");
    t.append(to_decimal(tools as u64).as_str());
    t.append(" 个工具）：");
    t.append(join(servers, ", ").as_str());
    Some(t)
}

/// Why the service does not come up, where its configuration is at fault.
pub fn bad_configuration(why: &str) -> (r: String)
    ensures
        r@ == "配置有问题，Joy 不启动："@ + why@
            + "\n（改好那个变量，或删掉 <home>/settings.json 里对应的覆盖；边界表见 joyczl-config 的 BOUNDS 与 docs/configuration.md）"@,
{
    let mut t = "配置有问题，Joy 不启动：".to_owned();
    t.append(why);
    t.append(
        "\n（改好那个变量，或删掉 <home>/settings.json 里对应的覆盖；边界表见 joyczl-config 的 BOUNDS 与 docs/configuration.md）",
    );
    t
}

/// The banner names every rule that lets a command through and every place that
/// commands may write to, and says so where there is none.
pub proof fn a_banner_names_every_rule(p: ExecPolicy, i: int)
    ensures
        0 <= i < p.allow@.len() ==> occurs(policy_text(p), p.allow@[i]@),
        p.allow@.len() == 0 ==> occurs(policy_text(p), "空（什么都不放行）"@),
        0 <= i < p.writable_roots@.len() ==> occurs(policy_text(p), p.writable_roots@[i]@),
        p.asks ==> occurs(policy_text(p), signed(p.approval_timeout_secs as int)),
        !p.sandbox ==> occurs(policy_text(p), "不可用（命令会被拒绝执行）"@),
        p.sandbox ==> occurs(policy_text(p), "沙箱 可用"@),
        p.network ==> occurs(policy_text(p), "可联网"@),
        !p.network ==> occurs(policy_text(p), "沙箱内断网（JOY_EXEC_NETWORK=1 可开）"@),
        !p.asks ==> occurs(
            policy_text(p),
            "，没匹配上直接拒绝（JOY_APPROVAL=on-request 可以改成问一句）"@,
        ),
{
    let a = "(joy) 执行工具已启用：沙箱 "@;
    let b = if p.sandbox {
        "可用"@
    } else {
        "不可用（命令会被拒绝执行）"@
    };
    let c = "，"@;
    let d = if p.network {
        "可联网"@
    } else {
        "沙箱内断网（JOY_EXEC_NETWORK=1 可开）"@
    };
    let e = "，放行规则："@;
    let f = if p.allow@.len() == 0 {
        "空（什么都不放行）"@
    } else {
        joined(views(p.allow@), ", "@)
    };
    let g = if p.asks {
        "，没匹配上时问你（"@ + signed(p.approval_timeout_secs as int) + "秒没人答就拒绝）"@
    } else {
        "，没匹配上直接拒绝（JOY_APPROVAL=on-request 可以改成问一句）"@
    };
    let h = if p.writable_roots@.len() == 0 {
        ""@
    } else {
        "，额外可写根："@ + joined(views(p.writable_roots@), ", "@)
    };
    let all = policy_text(p);
    assert(all == a + b + c + d + e + f + g + h);
    lemma_occurs(a, b, c + d + e + f + g + h);
    assert(all =~= a + b + (c + d + e + f + g + h));
    lemma_occurs(a + b + c, d, e + f + g + h);
    assert(all =~= (a + b + c) + d + (e + f + g + h));
    lemma_occurs(a + b + c + d + e, f, g + h);
    assert(all =~= (a + b + c + d + e) + f + (g + h));
    lemma_occurs(a + b + c + d + e + f, g, h);
    lemma_occurs(a + b + c + d + e + f + g, h, Seq::empty());
    assert(all =~= (a + b + c + d + e + f + g) + h + Seq::<char>::empty());
    if p.sandbox {
        lemma_sandbox_named(c + d + e + f + g + h);
        assert(all =~= a + b + (c + d + e + f + g + h));
    }
    if p.asks {
        let n = signed(p.approval_timeout_secs as int);
        lemma_occurs("，没匹配上时问你（"@, n, "秒没人答就拒绝）"@);
        lemma_occurs_within(all, g, n);
    }
    if 0 <= i < p.allow@.len() {
        lemma_listed(p.allow@, i);
        lemma_occurs_within(all, f, p.allow@[i]@);
    }
    if 0 <= i < p.writable_roots@.len() {
        let list = joined(views(p.writable_roots@), ", "@);
        lemma_listed(p.writable_roots@, i);
        lemma_occurs("，额外可写根："@, list, Seq::empty());
        assert(h =~= "，额外可写根："@ + list + Seq::<char>::empty());
        lemma_occurs_within(all, h, list);
        lemma_occurs_within(all, list, p.writable_roots@[i]@);
    }
}

proof fn lemma_sandbox_named(rest: Seq<char>)
    ensures
        occurs("(joy) 执行工具已启用：沙箱 "@ + "可用"@ + rest, "沙箱 可用"@),
{
    let front = "(joy) 执行工具已启用："@;
    reveal_strlit("(joy) 执行工具已启用：沙箱 ");
    reveal_strlit("(joy) 执行工具已启用：");
    reveal_strlit("可用");
    reveal_strlit("沙箱 可用");
    lemma_occurs(front, "沙箱 可用"@, rest);
    assert("(joy) 执行工具已启用：沙箱 "@ + "可用"@ + rest =~= front + "沙箱 可用"@ + rest);
}

proof fn lemma_listed(list: Seq<String>, i: int)
    requires
        0 <= i < list.len(),
    ensures
        occurs(joined(views(list), ", "@), list[i]@),
{
    let all = views(list);
    assert(all =~= all.take(i) + seq![all[i]] + all.skip(i + 1));
    a_joined_text_holds_its_parts(all.take(i), all[i], all.skip(i + 1), ", "@);
}

} // verus!
