//! Servers of tools: what a configuration means, how their tools are named, and
//! when a failing server is left alone.

use vstd::prelude::*;

use crate::table::Table;
use crate::text::{
    ascii_alnum, ascii_digit, chars_of, decimal, finishes, is_among, is_ascii_alnum, lemma_decimal,
    lemma_occurs, occurs, opt_text, piece, to_decimal, value_of, views,
};

verus! {

// ---- the configuration -----------------------------------------------------

/// A server as it is configured: a command to start it, or an address.
#[derive(Debug, Clone, PartialEq, Eq)]
pub struct ServerSpec {
    pub name: String,
    pub url: Option<String>,
    pub command: Option<String>,
    pub args: Option<Vec<String>>,
    pub env: Option<Vec<(String, String)>>,
    /// The variable that holds the credential, never the credential itself.
    pub auth_env: Option<String>,
    pub oauth: Option<bool>,
}

impl Default for ServerSpec {
    fn default() -> (r: ServerSpec)
        ensures
            r.name@ == ""@,
            r.url is None,
            r.command is None,
            r.args is None,
            r.env is None,
            r.auth_env is None,
            r.oauth is None,
    {
        ServerSpec {
            name: "".to_owned(),
            url: None,
            command: None,
            args: None,
            env: None,
            auth_env: None,
            oauth: None,
        }
    }
}

#[derive(Debug, Clone, PartialEq, Eq)]
pub struct Config {
    pub servers: Vec<ServerSpec>,
}

/// How a server is reached.
#[derive(Debug, Clone, PartialEq, Eq)]
pub enum Transport {
    Stdio {
        command: String,
        args: Vec<String>,
        /// Where it is given, the process gets these variables and no others.
        env: Option<Vec<(String, String)>>,
    },
    Http { url: String, token: Option<String> },
}

/// A text that may be missing: nothing is as good as empty.
pub open spec fn filled(t: Option<String>) -> Seq<char> {
    match t {
        Some(s) => s@,
        None => Seq::empty(),
    }
}

pub open spec fn flag(b: Option<bool>) -> bool {
    b == Some(true)
}

/// The value of a variable, where it has one that is not empty.
pub open spec fn variable(vars: Map<Seq<char>, String>, name: Seq<char>) -> Option<Seq<char>> {
    if vars.contains_key(name) && vars[name]@.len() > 0 {
        Some(vars[name]@)
    } else {
        None
    }
}

/// What is wrong with a configuration, if anything.
pub open spec fn misconfigured(spec: ServerSpec, vars: Map<Seq<char>, String>) -> Option<Seq<char>> {
    let url = filled(spec.url);
    let command = filled(spec.command);
    let auth = filled(spec.auth_env);
    if url.len() > 0 && command.len() > 0 {
        Some("同时写了 'url' 和 'command' —— 只能挑一种传输"@)
    } else if url.len() == 0 && command.len() == 0 {
        Some("既没有 'url' 也没有 'command' —— 不知道该连什么"@)
    } else if url.len() == 0 {
        None
    } else if auth.len() > 0 && flag(spec.oauth) {
        Some("同时写了 'auth_env' 和 'oauth' —— 只能挑一种"@)
    } else if auth.len() > 0 && variable(vars, auth) is None {
        Some(auth + " 没有值（mcp.json 里的 'auth_env' 指的是它）"@)
    } else {
        None
    }
}

pub open spec fn pairs_of(v: Seq<(String, String)>) -> Seq<(Seq<char>, Seq<char>)> {
    v.map_values(|p: (String, String)| (p.0@, p.1@))
}

pub open spec fn opt_pairs(v: Option<Vec<(String, String)>>) -> Option<Seq<(Seq<char>, Seq<char>)>> {
    match v {
        Some(list) => Some(pairs_of(list@)),
        None => None,
    }
}

/// The way to a server that a sound configuration describes.
pub open spec fn leads_to(spec: ServerSpec, vars: Map<Seq<char>, String>, t: Transport) -> bool {
    if filled(spec.url).len() == 0 {
        t matches Transport::Stdio { command, args, env } && command@ == filled(spec.command)
            && views(args@) == match spec.args {
            Some(a) => views(a@),
            None => Seq::empty(),
        } && opt_pairs(env) == opt_pairs(spec.env)
    } else {
        t matches Transport::Http { url, token } && url@ == filled(spec.url) && opt_text(token)
            == if filled(spec.auth_env).len() > 0 {
            variable(vars, filled(spec.auth_env))
        } else {
            None
        }
    }
}

fn copy_pairs(v: &Vec<(String, String)>) -> (r: Vec<(String, String)>)
    ensures
        pairs_of(r@) == pairs_of(v@),
{
    let mut r: Vec<(String, String)> = Vec::new();
    let mut i: usize = 0;
    assert(pairs_of(r@) =~= pairs_of(v@).take(0));
    while i < v.len()
        invariant
            i <= v@.len(),
            pairs_of(r@) == pairs_of(v@).take(i as int),
        decreases v@.len() - i,
    {
        let ghost before = pairs_of(r@);
        r.push((v[i].0.clone(), v[i].1.clone()));
        assert(pairs_of(r@) =~= before.push(pairs_of(v@)[i as int]));
        assert(pairs_of(v@).take(i + 1) =~= before.push(pairs_of(v@)[i as int]));
        i += 1;
    }
    assert(pairs_of(v@).take(v@.len() as int) =~= pairs_of(v@));
    r
}

fn fill_text(t: &Option<String>) -> (r: String)
    ensures
        r@ == filled(*t),
{
    match t {
        Some(s) => s.clone(),
        None => {
            let s = String::new();
            assert(s@ =~= Seq::<char>::empty());
            s
        },
    }
}

/// What a configuration means, or what is wrong with it: two ways at once are no
/// way. `vars` are the variables of the environment.
pub fn resolve(spec: &ServerSpec, vars: &Table<String>) -> (r: Result<Transport, String>)
    ensures
        match misconfigured(*spec, vars@) {
            Some(why) => r matches Err(e) && e@ == why,
            None => r matches Ok(t) && leads_to(*spec, vars@, t),
        },
{
    let url = fill_text(&spec.url);
    let command = fill_text(&spec.command);
    let has_url = url.as_str().unicode_len() > 0;
    let has_command = command.as_str().unicode_len() > 0;
    if has_url && has_command {
        return Err("同时写了 'url' 和 'command' —— 只能挑一种传输".to_owned());
    }
    if !has_url && !has_command {
        return Err("既没有 'url' 也没有 'command' —— 不知道该连什么".to_owned());
    }
    if !has_url {
        let args = match &spec.args {
            Some(a) => {
                let copied = a.clone();
                assert(copied@ =~= a@);
                copied
            },
            None => {
                let none: Vec<String> = Vec::new();
                assert(views(none@) =~= Seq::<Seq<char>>::empty());
                none
            },
        };
        let env = match &spec.env {
            Some(e) => Some(copy_pairs(e)),
            None => None,
        };
        return Ok(Transport::Stdio { command, args, env });
    }
    let auth = fill_text(&spec.auth_env);
    let has_auth = auth.as_str().unicode_len() > 0;
    let oauth = match spec.oauth {
        Some(b) => b,
        None => false,
    };
    if has_auth && oauth {
        return Err("同时写了 'auth_env' 和 'oauth' —— 只能挑一种".to_owned());
    }
    if has_auth {
        match vars.get(auth.as_str()) {
            Some(value) => {
                if value.as_str().unicode_len() > 0 {
                    return Ok(Transport::Http { url, token: Some(value.clone()) });
                }
            },
            None => {},
        }
        let mut why = auth;
        why.append(" 没有值（mcp.json 里的 'auth_env' 指的是它）");
        return Err(why);
    }
    Ok(Transport::Http { url, token: None })
}

/// A server that is to be asked with a credential is never asked without one.
pub proof fn a_credential_is_never_left_out(
    spec: ServerSpec,
    vars: Map<Seq<char>, String>,
    t: Transport,
)
    requires
        misconfigured(spec, vars) is None,
        leads_to(spec, vars, t),
        filled(spec.url).len() > 0,
        filled(spec.auth_env).len() > 0,
    ensures
        t matches Transport::Http { url, token } && token is Some && token->0@.len() > 0,
{
}

/// What to look at where a server cannot be reached.
pub fn auth_hint(transport: &Transport) -> (r: Option<String>)
    ensures
        match *transport {
            Transport::Http { url, token: None } => r matches Some(t) && t@ == "  "@ + url@
                + " —— 如果它需要鉴权，检查 'auth_env' 指的那个变量里有没有有效的凭证"@,
            _ => r is None,
        },
{
    match transport {
        Transport::Http { url, token: None } => {
            let mut t = "  ".to_owned();
            t.append(url.as_str());
            t.append(" —— 如果它需要鉴权，检查 'auth_env' 指的那个变量里有没有有效的凭证");
            Some(t)
        },
        _ => None,
    }
}

// ---- names -----------------------------------------------------------------

/// The longest name that a model is told.
pub const NAME_LIMIT: usize = 64;

pub open spec fn name_char(c: char) -> bool {
    ascii_alnum(c) || c == '_' || c == '-'
}

pub open spec fn safe_char(c: char) -> char {
    if name_char(c) {
        c
    } else {
        '_'
    }
}

pub open spec fn safe_text(s: Seq<char>) -> Seq<char> {
    s.map_values(|c: char| safe_char(c))
}

/// The first place from `i` on that holds no underscore; the last place counts
/// whatever it holds, so that something is left of a text.
pub open spec fn skip_underscores(s: Seq<char>, i: int) -> int
    decreases s.len() - i,
{
    if 0 <= i < s.len() - 1 && s[i] == '_' {
        skip_underscores(s, i + 1)
    } else {
        i
    }
}

/// The end of a text, of at most the limit, where the text is longer: the tool's
/// own name is what tells tools apart.
pub open spec fn tail(s: Seq<char>) -> Seq<char> {
    if s.len() <= NAME_LIMIT {
        s
    } else {
        let from = skip_underscores(s, s.len() - NAME_LIMIT);
        s.subrange(from, s.len() as int)
    }
}

pub open spec fn safe_name(server: Seq<char>, tool: Seq<char>) -> Seq<char> {
    tail(safe_text(server + "_"@ + tool))
}

proof fn lemma_skip_underscores(s: Seq<char>, i: int)
    requires
        0 <= i < s.len(),
    ensures
        i <= skip_underscores(s, i) < s.len(),
        skip_underscores(s, i) < s.len() - 1 ==> s[skip_underscores(s, i)] != '_',
        forall|k: int| i <= k < skip_underscores(s, i) ==> s[k] == '_',
    decreases s.len() - i,
{
    if i < s.len() - 1 && s[i] == '_' {
        lemma_skip_underscores(s, i + 1);
    }
}

/// The name under which a model gets to know a tool. The server is still asked
/// for the tool by its own name.
pub fn model_safe_name(server: &str, tool: &str) -> (r: String)
    ensures
        r@ == safe_name(server@, tool@),
        1 <= r@.len() <= NAME_LIMIT,
{
    proof {
        a_safe_name_is_accepted(server@, tool@);
    }
    let mut full = server.to_owned();
    full.append("_");
    full.append(tool);
    let v = chars_of(full.as_str());
    let n: usize = v.len();
    let ghost whole = safe_text(v@);
    let mut safe: Vec<char> = Vec::new();
    let mut i: usize = 0;
    while i < n
        invariant
            i <= n,
            n == v@.len(),
            whole == safe_text(v@),
            safe@ == whole.take(i as int),
        decreases n - i,
    {
        let c: char = v[i];
        let kept: char = if is_ascii_alnum(c) || c == '_' || c == '-' {
            c
        } else {
            '_'
        };
        assert(whole[i as int] == kept);
        safe.push(kept);
        assert(safe@ =~= whole.take(i + 1));
        i += 1;
    }
    assert(whole.take(n as int) =~= whole);
    if n <= NAME_LIMIT {
        assert(safe@.subrange(0, n as int) =~= safe@);
        return piece(&safe, 0, n);
    }
    let mut from: usize = n - NAME_LIMIT;
    while from < n - 1 && safe[from] == '_'
        invariant
            n - NAME_LIMIT <= from < n,
            n == safe@.len(),
            n > NAME_LIMIT,
            skip_underscores(safe@, n - NAME_LIMIT) == skip_underscores(safe@, from as int),
        decreases n - from,
    {
        from += 1;
    }
    assert(skip_underscores(safe@, n - NAME_LIMIT) == from);
    piece(&safe, from, n)
}

/// A name that a model can be told: letters, digits, `_` and `-`, at least one
/// and not too many of them. A name that was cut starts with no underscore,
/// unless that is all of it.
pub proof fn a_safe_name_is_accepted(server: Seq<char>, tool: Seq<char>)
    ensures
        1 <= safe_name(server, tool).len() <= NAME_LIMIT,
        forall|i: int|
            0 <= i < safe_name(server, tool).len() ==> name_char(
                #[trigger] safe_name(server, tool)[i],
            ),
        safe_text(server + "_"@ + tool).len() > NAME_LIMIT && safe_name(server, tool).len() > 1
            ==> safe_name(server, tool)[0] != '_',
{
    reveal_strlit("_");
    let s = safe_text(server + "_"@ + tool);
    if s.len() > NAME_LIMIT {
        lemma_skip_underscores(s, s.len() - NAME_LIMIT);
        let from = skip_underscores(s, s.len() - NAME_LIMIT);
        assert forall|i: int| 0 <= i < safe_name(server, tool).len() implies name_char(
            #[trigger] safe_name(server, tool)[i],
        ) by {
            assert(safe_name(server, tool)[i] == s[from + i]);
        }
    }
}

/// A name for the `n`-th tool of one name: the number goes to its end, and as
/// much of the name as fits goes before it.
pub open spec fn numbered(base: Seq<char>, n: nat) -> Seq<char> {
    let number = "_"@ + decimal(n);
    let room = NAME_LIMIT - number.len();
    (if base.len() <= room {
        base
    } else {
        base.subrange(base.len() - room, base.len() as int)
    }) + number
}

pub open spec fn ten_to(k: nat) -> nat
    decreases k,
{
    if k == 0 {
        1
    } else {
        10 * ten_to((k - 1) as nat)
    }
}

proof fn lemma_decimal_len(n: nat, k: nat)
    requires
        k >= 1,
        n < ten_to(k),
    ensures
        1 <= decimal(n).len() <= k,
    decreases k,
{
    if n >= 10 {
        assert(k > 1) by {
            if k == 1 {
                reveal_with_fuel(ten_to, 2);
            }
        }
        assert(n / 10 < ten_to((k - 1) as nat));
        lemma_decimal_len(n / 10, (k - 1) as nat);
    }
}

proof fn lemma_short(n: nat)
    requires
        n <= u64::MAX,
    ensures
        1 <= decimal(n).len() <= 20,
{
    reveal_with_fuel(ten_to, 21);
    lemma_decimal_len(n, 20);
}

proof fn lemma_numbered_differ(base: Seq<char>, a: nat, b: nat)
    requires
        a <= u64::MAX,
        b <= u64::MAX,
        numbered(base, a) == numbered(base, b),
    ensures
        a == b,
{
    lemma_short(a);
    lemma_short(b);
    lemma_decimal(a);
    lemma_decimal(b);
    reveal_strlit("_");
    let x = numbered(base, a);
    let y = numbered(base, b);
    let da = decimal(a);
    let db = decimal(b);
    assert("_"@.len() == 1 && "_"@[0] == '_');
    let ua = x.len() - da.len() - 1;
    let ub = y.len() - db.len() - 1;
    assert(x[ua] == '_');
    assert(y[ub] == '_');
    assert(forall|i: int| 0 <= i < da.len() ==> x[ua + 1 + i] == #[trigger] da[i]);
    assert(forall|i: int| 0 <= i < db.len() ==> y[ub + 1 + i] == #[trigger] db[i]);
    if ua < ub {
        assert(x[ub] == da[ub - ua - 1]);
        assert(ascii_digit(da[ub - ua - 1]));
        assert(false);
    } else if ub < ua {
        assert(y[ua] == db[ua - ub - 1]);
        assert(ascii_digit(db[ua - ub - 1]));
        assert(false);
    }
    assert(da =~= db) by {
        assert forall|i: int| 0 <= i < da.len() implies da[i] == db[i] by {
            assert(x[ua + 1 + i] == da[i]);
            assert(y[ub + 1 + i] == db[i]);
        }
    }
    assert(value_of(da, da.len() as int) == value_of(db, db.len() as int));
}

/// The names with numbers from 2 up to below `n`.
spec fn numbered_names(base: Seq<char>, n: nat) -> Set<Seq<char>>
    decreases n,
{
    if n <= 2 {
        Set::empty()
    } else {
        numbered_names(base, (n - 1) as nat).insert(numbered(base, (n - 1) as nat))
    }
}

proof fn lemma_numbered_names(base: Seq<char>, n: nat)
    requires
        2 <= n <= u64::MAX,
    ensures
        numbered_names(base, n).finite(),
        numbered_names(base, n).len() == n - 2,
        forall|x: Seq<char>|
            numbered_names(base, n).contains(x) ==> exists|k: nat|
                2 <= k < n && x == #[trigger] numbered(base, k),
    decreases n,
{
    if n > 2 {
        let m = (n - 1) as nat;
        lemma_numbered_names(base, m);
        if numbered_names(base, m).contains(numbered(base, m)) {
            let k = choose|k: nat| 2 <= k < m && numbered(base, m) == #[trigger] numbered(base, k);
            lemma_numbered_differ(base, m, k);
        }
        assert forall|x: Seq<char>| numbered_names(base, n).contains(x) implies exists|k: nat|
            2 <= k < n && x == #[trigger] numbered(base, k) by {
            if x == numbered(base, m) {
            } else {
                let k = choose|k: nat| 2 <= k < m && x == #[trigger] numbered(base, k);
            }
        }
    }
}

/// Not all names with a number below `n` can be taken, where fewer are.
proof fn lemma_one_is_free(base: Seq<char>, taken: Seq<Seq<char>>, n: nat)
    requires
        2 <= n <= u64::MAX,
        forall|k: nat| 2 <= k < n ==> taken.contains(#[trigger] numbered(base, k)),
    ensures
        n - 2 <= taken.len(),
{
    lemma_numbered_names(base, n);
    taken.lemma_cardinality_of_set();
    vstd::seq_lib::seq_to_set_is_finite(taken);
    assert(numbered_names(base, n).subset_of(taken.to_set())) by {
        assert forall|x: Seq<char>| numbered_names(base, n).contains(
            x,
        ) implies taken.to_set().contains(x) by {
            let k = choose|k: nat| 2 <= k < n && x == #[trigger] numbered(base, k);
            assert(taken.contains(numbered(base, k)));
        }
    }
    vstd::set_lib::lemma_len_subset(numbered_names(base, n), taken.to_set());
}

fn number_name(base: &str, n: u64) -> (r: String)
    ensures
        r@ == numbered(base@, n as nat),
{
    proof {
        lemma_short(n as nat);
        reveal_strlit("_");
        assert("_"@.len() == 1);
    }
    let mut number = "_".to_owned();
    number.append(to_decimal(n).as_str());
    let room: usize = NAME_LIMIT - number.as_str().unicode_len();
    let v = chars_of(base);
    let count: usize = v.len();
    let mut t = if count <= room {
        base.to_owned()
    } else {
        piece(&v, count - room, count)
    };
    t.append(number.as_str());
    t
}

/// The name under which a tool goes, given the names that are taken: its safe
/// name, or that with the first number from 2 on that is free.
pub open spec fn goes_by(base: Seq<char>, taken: Seq<Seq<char>>, name: Seq<char>) -> bool {
    if taken.contains(base) {
        exists|n: nat|
            {
                &&& 2 <= n
                &&& name == #[trigger] numbered(base, n)
                &&& forall|k: nat| 2 <= k < n ==> taken.contains(#[trigger] numbered(base, k))
            }
    } else {
        name == base
    }
}

/// Like `model_safe_name`, but never a name that is taken: two servers whose
/// names fall together do not hide each other's tools. Says whether the name had
/// to be changed.
pub fn model_safe_name_unique(server: &str, tool: &str, taken: &mut Vec<String>) -> (r: (
    String,
    bool,
))
    requires
        old(taken)@.len() + 4 < u64::MAX,
    ensures
        r.1 == views(old(taken)@).contains(safe_name(server@, tool@)),
        goes_by(safe_name(server@, tool@), views(old(taken)@), r.0@),
        !views(old(taken)@).contains(r.0@),
        r.0@.len() <= NAME_LIMIT,
        views(final(taken)@) == views(old(taken)@).push(r.0@),
{
    let base = model_safe_name(server, tool);
    let ghost names = views(taken@);
    proof {
        a_safe_name_is_accepted(server@, tool@);
    }
    if !is_among(taken, base.as_str()) {
        taken.push(base.clone());
        assert(views(taken@) =~= names.push(base@));
        return (base, false);
    }
    let count: usize = taken.len();
    assert(names.len() == count);
    let mut n: u64 = 2;
    let mut name = number_name(base.as_str(), n);
    while is_among(taken, name.as_str())
        invariant
            2 <= n,
            n - 2 <= count,
            count == names.len(),
            count < u64::MAX - 4,
            names == views(taken@),
            taken@ == old(taken)@,
            name@ == numbered(base@, n as nat),
            forall|k: nat| 2 <= k < n ==> names.contains(#[trigger] numbered(base@, k)),
        decreases count + 2 - n,
    {
        proof {
            assert forall|k: nat| 2 <= k < n + 1 implies names.contains(
                #[trigger] numbered(base@, k),
            ) by {
                if k == n {
                    assert(numbered(base@, k) == name@);
                }
            }
            lemma_one_is_free(base@, names, (n + 1) as nat);
        }
        n += 1;
        name = number_name(base.as_str(), n);
    }
    proof {
        lemma_short(n as nat);
        reveal_strlit("_");
        assert("_"@.len() == 1);
    }
    taken.push(name.clone());
    assert(views(taken@) =~= names.push(name@));
    (name, true)
}

/// Names that were given out stay apart.
pub proof fn names_stay_apart(taken: Seq<Seq<char>>, name: Seq<char>)
    requires
        taken.no_duplicates(),
        !taken.contains(name),
    ensures
        taken.push(name).no_duplicates(),
{
}

// ---- calls -----------------------------------------------------------------

/// How long a server is waited for.
pub const TIMEOUT_SECS: u64 = 30;

/// What became of a call.
#[derive(Debug, Clone, PartialEq, Eq)]
pub enum CallOutcome {
    Text(String),
    Failed(String),
    TimedOut,
}

pub open spec fn call_words(name: Seq<char>, tool: Seq<char>, outcome: CallOutcome) -> Seq<char> {
    match outcome {
        CallOutcome::Text(t) => t@,
        CallOutcome::Failed(e) => "MCP 调用 "@ + name + "_"@ + tool + " 失败："@ + e@,
        CallOutcome::TimedOut => "MCP 调用 "@ + name + "_"@ + tool + " 失败：超过 "@ + decimal(
            TIMEOUT_SECS as nat,
        ) + " 秒没有回话"@,
    }
}

/// What the model reads of a call: a failure is words too.
pub fn call_text(name: &str, tool: &str, outcome: CallOutcome) -> (r: String)
    ensures
        r@ == call_words(name@, tool@, outcome),
{
    match outcome {
        CallOutcome::Text(t) => t,
        CallOutcome::Failed(e) => {
            let mut t = "MCP 调用 ".to_owned();
            t.append(name);
            t.append("_");
            t.append(tool);
            t.append(" 失败：");
            t.append(e.as_str());
            t
        },
        CallOutcome::TimedOut => {
            let mut t = "MCP 调用 ".to_owned();
            t.append(name);
            t.append("_");
            t.append(tool);
            t.append(" 失败：超过 ");
            t.append(to_decimal(TIMEOUT_SECS).as_str());
            t.append(" 秒没有回话");
            t
        },
    }
}

pub fn timed_out(what: &str) -> (r: String)
    ensures
        r@ == what@ + "（超过 "@ + decimal(TIMEOUT_SECS as nat) + " 秒）"@,
{
    let mut t = what.to_owned();
    t.append("（超过 ");
    t.append(to_decimal(TIMEOUT_SECS).as_str());
    t.append(" 秒）");
    t
}

pub fn not_connected(server: &str) -> (r: String)
    ensures
        r@ == "MCP 服务器 '"@ + server@ + "' 没有连上。"@,
{
    let mut t = "MCP 服务器 '".to_owned();
    t.append(server);
    t.append("' 没有连上。");
    t
}

// ---- connecting ------------------------------------------------------------

/// What to do about a configured server.
#[derive(Debug, Clone, PartialEq, Eq)]
pub enum Plan {
    /// Leave it out, and say why.
    Skip(String),
    /// Connect; a token is to be had first where `login` holds.
    Connect { target: Transport, login: bool },
}

pub open spec fn named_problem(name: Seq<char>, verb: Seq<char>, why: Seq<char>) -> Seq<char> {
    "MCP 服务器 '"@ + name + verb + why
}

fn problem(name: &str, verb: &str, why: &str) -> (r: String)
    ensures
        r@ == named_problem(name@, verb@, why@),
{
    let mut t = "MCP 服务器 '".to_owned();
    t.append(name);
    t.append(verb);
    t.append(why);
    t
}

pub fn plan_server(spec: &ServerSpec, vars: &Table<String>) -> (r: Plan)
    ensures
        if spec.name@.len() == 0 {
            r matches Plan::Skip(why) && why@ == "有一条服务器没写 'name'，跳过"@
        } else {
            match misconfigured(*spec, vars@) {
                Some(e) => r matches Plan::Skip(why) && why@ == named_problem(
                    spec.name@,
                    "' 跳过："@,
                    e,
                ),
                None => r matches Plan::Connect { target, login } && leads_to(*spec, vars@, target)
                    && login == flag(spec.oauth),
            }
        },
{
    if spec.name.as_str().unicode_len() == 0 {
        return Plan::Skip("有一条服务器没写 'name'，跳过".to_owned());
    }
    match resolve(spec, vars) {
        Err(why) => Plan::Skip(problem(spec.name.as_str(), "' 跳过：", why.as_str())),
        Ok(target) => {
            let login = match spec.oauth {
                Some(b) => b,
                None => false,
            };
            Plan::Connect { target, login }
        },
    }
}

pub fn login_needed(name: &str, why: &str) -> (r: String)
    ensures
        r@ == named_problem(name@, "' 需要登录："@, why@),
{
    problem(name, "' 需要登录：", why)
}

/// The way to a server, with the token that a login has given.
pub fn with_token(target: Transport, token: String) -> (r: Transport)
    ensures
        match target {
            Transport::Http { url, token: _ } => r == (Transport::Http { url, token: Some(token) }),
            _ => r == target,
        },
{
    match target {
        Transport::Http { url, token: _ } => Transport::Http { url, token: Some(token) },
        other => other,
    }
}

/// What is said of a server that cannot be reached.
pub fn unreachable_server(name: &str, target: &Transport, why: &str) -> (r: Vec<String>)
    ensures
        r@.len() == if *target matches Transport::Http { url, token: None } {
            2int
        } else {
            1int
        },
        r@[0]@ == named_problem(name@, "' 连不上："@, why@),
        *target matches Transport::Http { url, token: None } ==> r@[1]@ == "  "@ + url@
            + " —— 如果它需要鉴权，检查 'auth_env' 指的那个变量里有没有有效的凭证"@,
{
    let mut r: Vec<String> = Vec::new();
    r.push(problem(name, "' 连不上：", why));
    match auth_hint(target) {
        Some(hint) => {
            r.push(hint);
        },
        None => {},
    }
    r
}

/// A server without tools is of no use.
pub fn check_tools(count: usize) -> (r: Result<(), String>)
    ensures
        if count == 0 {
            r matches Err(e) && e@ == "一个工具都没报上来"@
        } else {
            r is Ok
        },
{
    if count == 0 {
        Err("一个工具都没报上来".to_owned())
    } else {
        Ok(())
    }
}

/// How a tool is described to a model.
pub fn tool_description(server: &str, description: &Option<String>) -> (r: String)
    ensures
        r@ == "[MCP:"@ + server@ + "] "@ + filled(*description),
{
    let mut t = "[MCP:".to_owned();
    t.append(server);
    t.append("] ");
    t.append(fill_text(description).as_str());
    t
}

// ---- a server that keeps failing -------------------------------------------

/// After how many failures in a row a server is left alone, and for how long.
#[derive(Debug, Clone, Copy, PartialEq, Eq, Structural)]
pub struct BreakerPolicy {
    pub failures: u32,
    pub cooldown_ms: u64,
}

/// Keeps calls from a server that keeps failing. Once it has cooled down, one
/// call is let through; how that goes decides what follows.
#[derive(Debug, Clone, Copy, PartialEq, Eq, Structural)]
pub struct Breaker {
    pub policy: BreakerPolicy,
    /// Failures in a row.
    pub failed: u32,
    /// When the last of too many failures was.
    pub opened_at: Option<u64>,
}

impl Breaker {
    /// No call goes through at this time.
    pub open spec fn blocks(self, now: u64) -> bool {
        self.opened_at is Some && now < self.opened_at->0 + self.policy.cooldown_ms
    }

    pub fn new(policy: BreakerPolicy) -> (r: Breaker)
        ensures
            r.policy == policy,
            r.failed == 0,
            r.opened_at is None,
    {
        Breaker { policy, failed: 0, opened_at: None }
    }

    /// Whether a call may go through; times are in milliseconds.
    pub fn admits(&self, now: u64) -> (r: bool)
        ensures
            r == !self.blocks(now),
    {
        match self.opened_at {
            Some(at) => now as u128 >= at as u128 + self.policy.cooldown_ms as u128,
            None => true,
        }
    }

    pub fn succeeded(&mut self)
        ensures
            final(self).policy == old(self).policy,
            final(self).failed == 0,
            final(self).opened_at is None,
    {
        self.failed = 0;
        self.opened_at = None;
    }

    pub fn has_failed(&mut self, now: u64)
        ensures
            *final(self) == failed_at(*old(self), now),
    {
        if self.failed < u32::MAX {
            self.failed = self.failed + 1;
        }
        if self.failed >= self.policy.failures {
            self.opened_at = Some(now);
        }
    }
}

/// The breaker after one more failure.
pub open spec fn failed_at(b: Breaker, now: u64) -> Breaker {
    let failed = if b.failed < u32::MAX {
        (b.failed + 1) as u32
    } else {
        b.failed
    };
    Breaker {
        policy: b.policy,
        failed,
        opened_at: if failed >= b.policy.failures {
            Some(now)
        } else {
            b.opened_at
        },
    }
}

/// A new breaker after failures at these times and no success.
pub open spec fn after_failures(policy: BreakerPolicy, times: Seq<u64>) -> Breaker
    decreases times.len(),
{
    if times.len() == 0 {
        Breaker { policy, failed: 0, opened_at: None }
    } else {
        failed_at(after_failures(policy, times.drop_last()), times.last())
    }
}

/// A server is left alone exactly where enough calls in a row have failed, and
/// only until it has cooled down from the last of them.
pub proof fn enough_failures_break_the_way(policy: BreakerPolicy, times: Seq<u64>, now: u64)
    requires
        0 < times.len() <= u32::MAX,
    ensures
        after_failures(policy, times).policy == policy,
        after_failures(policy, times).failed == times.len(),
        after_failures(policy, times).blocks(now) <==> times.len() >= policy.failures && now
            < times.last() + policy.cooldown_ms,
        times.len() < policy.failures ==> after_failures(policy, times).opened_at is None,
    decreases times.len(),
{
    let before = times.drop_last();
    if before.len() > 0 {
        enough_failures_break_the_way(policy, before, now);
    } else {
        reveal_with_fuel(after_failures, 2);
    }
}

/// What the model reads where a call was not made.
pub fn skipped_call(name: &str, tool: &str) -> (r: String)
    ensures
        r@ == "MCP 调用 "@ + name@ + "_"@ + tool@ + " 被跳过：这台服务器连续失败，断路器开着"@,
{
    let mut t = "MCP 调用 ".to_owned();
    t.append(name);
    t.append("_");
    t.append(tool);
    t.append(" 被跳过：这台服务器连续失败，断路器开着");
    t
}

// ---- what a server and a name promise --------------------------------------

/// A server is well configured exactly where it has one way to be reached, and the
/// credential that it names is there; a missing one is named.
pub proof fn a_server_needs_one_way(spec: ServerSpec, vars: Map<Seq<char>, String>)
    ensures
        ({
            let url = filled(spec.url).len() > 0;
            let command = filled(spec.command).len() > 0;
            let auth = filled(spec.auth_env).len() > 0;
            &&& misconfigured(spec, vars) is None <==> (url && !command && (!auth || (
            spec.oauth != Some(true) && variable(vars, filled(spec.auth_env)) is Some))) || (!url
                && command)
            &&& url && !command && auth && spec.oauth != Some(true) && variable(
                vars,
                filled(spec.auth_env),
            ) is None ==> misconfigured(spec, vars) is Some && occurs(
                misconfigured(spec, vars)->0,
                filled(spec.auth_env),
            )
        }),
{
    let auth = filled(spec.auth_env);
    let rest = " 没有值（mcp.json 里的 'auth_env' 指的是它）"@;
    lemma_occurs(Seq::empty(), auth, rest);
    assert(Seq::<char>::empty() + auth + rest =~= auth + rest);
}

/// A variable counts where it is set to something.
pub proof fn a_variable_is_what_it_holds(vars: Map<Seq<char>, String>, name: Seq<char>)
    ensures
        variable(vars, name) is Some <==> vars.contains_key(name) && vars[name]@.len() > 0,
        variable(vars, name) matches Some(v) ==> v == vars[name]@,
{
}

/// A server is reached as it was configured: by its address, with the credential that
/// its variable holds, or by its command, with its own arguments and variables.
pub proof fn a_server_is_reached_as_configured(
    spec: ServerSpec,
    vars: Map<Seq<char>, String>,
    t: Transport,
)
    requires
        leads_to(spec, vars, t),
        misconfigured(spec, vars) is None,
    ensures
        match t {
            Transport::Http { url, token } => {
                &&& spec.url is Some && url@ == spec.url->0@ && url@.len() > 0
                &&& filled(spec.auth_env).len() > 0 ==> token is Some && vars.contains_key(
                    filled(spec.auth_env),
                ) && token->0@ == vars[filled(spec.auth_env)]@
                &&& filled(spec.auth_env).len() == 0 ==> token is None
            },
            Transport::Stdio { command, args, env } => {
                &&& spec.command is Some && command@ == spec.command->0@ && command@.len() > 0
                &&& spec.args is Some ==> views(args@) == views(spec.args->0@)
                &&& spec.args is None ==> args@.len() == 0
                &&& spec.env is Some <==> env is Some
                &&& spec.env is Some ==> pairs_of(env->0@) == pairs_of(spec.env->0@)
            },
        },
{
    match t {
        Transport::Stdio { command, args, env } => {
            assert(views(args@).len() == args@.len());
        },
        _ => {},
    }
}

/// A name is a letter, a digit, an underscore or a hyphen in every place; what was
/// one stays, and what was none becomes an underscore.
pub proof fn a_safe_text_changes_only_what_is_unsafe(s: Seq<char>, i: int)
    requires
        0 <= i < s.len(),
    ensures
        safe_text(s).len() == s.len(),
        ascii_alnum(s[i]) || s[i] == '_' || s[i] == '-' ==> safe_text(s)[i] == s[i],
        !(ascii_alnum(s[i]) || s[i] == '_' || s[i] == '-') ==> safe_text(s)[i] == '_',
{
}

/// A short safe name is the server's and the tool's own; a long one keeps its end,
/// which tells the tool.
pub proof fn a_name_keeps_its_end(server: Seq<char>, tool: Seq<char>)
    ensures
        ({
            let whole = safe_text(server + "_"@ + tool);
            let name = safe_name(server, tool);
            &&& whole.len() <= 64 ==> name == whole
            &&& name.len() <= whole.len() && whole.skip(whole.len() - name.len()) == name
            &&& whole.len() > 64 && whole[whole.len() - 64] != '_' ==> name.len() == 64
            &&& whole.len() > 64 && name.len() > 1 ==> name[0] != '_'
        }),
{
    let whole = safe_text(server + "_"@ + tool);
    reveal_strlit("_");
    if whole.len() > 64 {
        let n = whole.len() as int;
        lemma_skips(whole, n - 64);
        let from = skip_underscores(whole, n - 64);
        assert(whole.subrange(from, n) =~= whole.skip(from));
    } else {
        assert(whole.skip(0) =~= whole);
    }
}

proof fn lemma_skips(s: Seq<char>, i: int)
    requires
        0 <= i < s.len(),
    ensures
        i <= skip_underscores(s, i) < s.len(),
        skip_underscores(s, i) < s.len() - 1 ==> s[skip_underscores(s, i)] != '_',
        s[i] != '_' ==> skip_underscores(s, i) == i,
    decreases s.len() - i,
{
    if i < s.len() - 1 && s[i] == '_' {
        lemma_skips(s, i + 1);
    }
}

/// A name that is taken gets a number behind it, and keeps as much of its end as
/// there is room for.
pub proof fn a_taken_name_gets_a_number(base: Seq<char>, n: nat)
    requires
        decimal(n).len() <= 20,
    ensures
        finishes(numbered(base, n), seq!['_'] + decimal(n)),
        numbered(base, n).len() <= 64,
        base.len() + 1 + decimal(n).len() <= 64 ==> numbered(base, n) == base + seq!['_'] + decimal(
            n,
        ),
{
    reveal_strlit("_");
    let number = "_"@ + decimal(n);
    assert(number =~= seq!['_'] + decimal(n));
    let name = numbered(base, n);
    assert(name.subrange(name.len() - number.len(), name.len() as int) =~= number);
    assert(base + number =~= base + seq!['_'] + decimal(n));
}

/// A name that is free is taken as it is.
pub proof fn a_free_name_is_kept(base: Seq<char>, taken: Seq<Seq<char>>, name: Seq<char>)
    requires
        goes_by(base, taken, name),
    ensures
        !taken.contains(base) ==> name == base,
        taken.contains(base) ==> exists|n: nat| n >= 2 && name == #[trigger] numbered(base, n),
{
}

/// What a tool said is handed on as it is; a failure names the tool, and why.
pub proof fn a_tool_is_heard(name: Seq<char>, tool: Seq<char>, said: String)
    ensures
        call_words(name, tool, CallOutcome::Text(said)) == said@,
        finishes(call_words(name, tool, CallOutcome::Failed(said)), said@),
        occurs(call_words(name, tool, CallOutcome::Failed(said)), name + seq!['_'] + tool),
        occurs(call_words(name, tool, CallOutcome::TimedOut), name + seq!['_'] + tool),
        occurs(call_words(name, tool, CallOutcome::TimedOut), decimal(30)),
{
    reveal_strlit("_");
    let which = name + seq!['_'] + tool;
    let a = "MCP 调用 "@;
    let b = " 失败："@;
    let x = call_words(name, tool, CallOutcome::Failed(said));
    assert("_"@ =~= seq!['_']);
    lemma_occurs(a, which, b + said@);
    assert(x =~= a + which + (b + said@));
    lemma_occurs(a + which + b, said@, Seq::empty());
    assert(x =~= (a + which + b) + said@ + Seq::<char>::empty());
    let c = " 失败：超过 "@;
    let d = " 秒没有回话"@;
    let y = call_words(name, tool, CallOutcome::TimedOut);
    lemma_occurs(a, which, c + decimal(30) + d);
    assert(y =~= a + which + (c + decimal(30) + d));
    lemma_occurs(a + which + c, decimal(30), d);
    assert(y =~= (a + which + c) + decimal(30) + d);
}

/// A problem names its server and says what it is.
pub proof fn a_problem_names_its_server(name: Seq<char>, verb: Seq<char>, why: Seq<char>)
    ensures
        occurs(named_problem(name, verb, why), name),
        finishes(named_problem(name, verb, why), why),
{
    let a = "MCP 服务器 '"@;
    let all = named_problem(name, verb, why);
    lemma_occurs(a, name, verb + why);
    assert(all =~= a + name + (verb + why));
    lemma_occurs(a + name + verb, why, Seq::empty());
    assert(all =~= (a + name + verb) + why + Seq::<char>::empty());
}

/// Each failure is counted; when there are enough in a row the way is broken from
/// then on, for as long as it is to cool down, and free again behind that.
pub proof fn a_failure_is_counted(b: Breaker, now: u64, later: u64)
    requires
        b.failed < u32::MAX,
    ensures
        failed_at(b, now).failed == b.failed + 1,
        failed_at(b, now).policy == b.policy,
        b.failed + 1 >= b.policy.failures ==> failed_at(b, now).opened_at == Some(now),
        b.failed + 1 < b.policy.failures ==> failed_at(b, now).opened_at == b.opened_at,
        b.failed + 1 >= b.policy.failures ==> (failed_at(b, now).blocks(later) <==> later < now
            + b.policy.cooldown_ms),
        b.opened_at is None ==> !b.blocks(later),
{
}

} // verus!
