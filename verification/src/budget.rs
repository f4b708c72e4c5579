//! The budget for tool results within one turn.
//!
//! When the results of a turn hold too many characters together, the largest
//! ones are exchanged for stubs, one at a time, until the rest fits.

use vstd::prelude::*;

use crate::model::{block_views, BlockV, ContentBlock, Message, message_views, MessageV};
use crate::text::{
    char_count, chars_of, contains, decimal, lemma_occurs, occurs, occurs_at, opt_text, piece,
    same, to_decimal,
};

verus! {

#[derive(Debug, Clone, Copy, PartialEq, Eq, Structural)]
pub struct ToolResultBudget {
    /// What all results of a turn may hold together.
    pub total_chars: usize,
    /// A result of no more than this is never exchanged.
    pub per_result_chars: usize,
}

impl Default for ToolResultBudget {
    fn default() -> (r: ToolResultBudget)
        ensures
            r.total_chars == 0,
            r.per_result_chars == 0,
    {
        ToolResultBudget::disabled()
    }
}

impl ToolResultBudget {
    pub fn disabled() -> (r: ToolResultBudget)
        ensures
            r.total_chars == 0,
            r.per_result_chars == 0,
    {
        ToolResultBudget { total_chars: 0, per_result_chars: 0 }
    }

    pub open spec fn on(self) -> bool {
        self.total_chars > 0 && self.per_result_chars > 0
    }

    pub fn enabled(&self) -> (r: bool)
        ensures
            r == self.on(),
    {
        self.total_chars > 0 && self.per_result_chars > 0
    }
}

#[derive(Debug, Clone, Copy, PartialEq, Eq, Structural)]
pub struct TrimReport {
    pub trimmed: usize,
    pub omitted_chars: usize,
    pub total_chars: usize,
    pub still_over_budget: bool,
}

/// The size that a stub is asked to have.
pub open spec fn stub_size(budget: ToolResultBudget) -> int {
    if budget.per_result_chars < 64 {
        64
    } else if budget.per_result_chars > 2_000 {
        2_000
    } else {
        budget.per_result_chars as int
    }
}

pub fn stub_budget(budget: &ToolResultBudget) -> (r: usize)
    ensures
        r == stub_size(*budget),
{
    if budget.per_result_chars < 64 {
        64
    } else if budget.per_result_chars > 2_000 {
        2_000
    } else {
        budget.per_result_chars
    }
}

/// A text that was exchanged before says so.
pub open spec fn stub_text(text: Seq<char>) -> bool {
    occurs(text, "完整输出在"@) || occurs(text, "已截断，省略了"@)
}

pub fn is_stub(text: &str) -> (r: bool)
    ensures
        r == stub_text(text@),
{
    contains(text, "完整输出在") || contains(text, "已截断，省略了")
}

/// The words for a text that was put aside: its first `keep` characters, how many
/// are left out, and where the whole of it is.
pub open spec fn stub_words(text: Seq<char>, keep: int, path: Option<Seq<char>>) -> Seq<char> {
    let head = text.take(keep) + "\n…（"@ + "已截断，省略了"@ + " "@ + decimal(
        (text.len() - keep) as nat,
    ) + " 字符"@;
    match path {
        Some(p) => head + "；完整输出在 "@ + p + "）"@,
        None => head + "）"@,
    }
}

/// What stands for a text. Nothing does where the text fits, or where the words
/// would be no shorter.
pub open spec fn stub_of(text: Seq<char>, keep: int, path: Option<Seq<char>>) -> Option<Seq<char>> {
    if text.len() <= keep || stub_words(text, keep, path).len() >= text.len() {
        None
    } else {
        Some(stub_words(text, keep, path))
    }
}

pub fn stub(text: &str, keep: usize, path: &Option<String>) -> (r: Option<String>)
    ensures
        match r {
            Some(s) => stub_of(text@, keep as int, opt_text(*path)) == Some(s@),
            None => stub_of(text@, keep as int, opt_text(*path)) is None,
        },
{
    let v = chars_of(text);
    if v.len() <= keep {
        return None;
    }
    let mut out = piece(&v, 0, keep);
    assert(out@ =~= text@.take(keep as int));
    out.append("\n…（");
    out.append("已截断，省略了");
    out.append(" ");
    out.append(to_decimal((v.len() - keep) as u64).as_str());
    out.append(" 字符");
    match path {
        Some(p) => {
            out.append("；完整输出在 ");
            out.append(p.as_str());
        },
        None => {},
    }
    out.append("）");
    if char_count(out.as_str()) < v.len() {
        Some(out)
    } else {
        None
    }
}

/// A stub is known for one, so that it is not exchanged again, and it is shorter
/// than what it stands for.
pub proof fn a_stub_says_so(text: Seq<char>, keep: int, path: Option<Seq<char>>)
    requires
        0 <= keep,
        stub_of(text, keep, path) is Some,
    ensures
        stub_text(stub_of(text, keep, path)->0),
        stub_of(text, keep, path)->0.len() < text.len(),
{
    let s = stub_words(text, keep, path);
    let word = "已截断，省略了"@;
    let i = keep + "\n…（"@.len();
    assert(s.subrange(i, i + word.len()) =~= word);
    assert(occurs_at(s, word, i));
}

// ---- results within a conversation -----------------------------------------

pub open spec fn is_result(ms: Seq<MessageV>, i: int, j: int) -> bool {
    0 <= i < ms.len() && 0 <= j < ms[i].content.len() && ms[i].content[j] is ToolResult
}

pub open spec fn result_text(ms: Seq<MessageV>, i: int, j: int) -> Seq<char> {
    ms[i].content[j]->content
}

pub open spec fn block_chars(block: BlockV) -> nat {
    match block {
        BlockV::ToolResult { content, .. } => content.len(),
        _ => 0,
    }
}

/// The characters that the results among `blocks` hold together.
pub open spec fn blocks_chars(blocks: Seq<BlockV>) -> nat
    decreases blocks.len(),
{
    if blocks.len() == 0 {
        0
    } else {
        blocks_chars(blocks.drop_last()) + block_chars(blocks.last())
    }
}

/// The characters that all results of a conversation hold together.
pub open spec fn total_of(ms: Seq<MessageV>) -> nat
    decreases ms.len(),
{
    if ms.len() == 0 {
        0
    } else {
        total_of(ms.drop_last()) + blocks_chars(ms.last().content)
    }
}

/// The name under which the tool use `id` was last made among `blocks`.
pub open spec fn name_among(blocks: Seq<BlockV>, id: Seq<char>) -> Option<Seq<char>>
    decreases blocks.len(),
{
    if blocks.len() == 0 {
        None
    } else {
        match blocks.last() {
            BlockV::ToolUse { id: used, name, .. } if used == id => Some(name),
            _ => name_among(blocks.drop_last(), id),
        }
    }
}

/// The tool that a result with this id came from.
pub open spec fn tool_named(ms: Seq<MessageV>, id: Seq<char>) -> Option<Seq<char>>
    decreases ms.len(),
{
    if ms.len() == 0 {
        None
    } else {
        match name_among(ms.last().content, id) {
            Some(name) => Some(name),
            None => tool_named(ms.drop_last(), id),
        }
    }
}

/// A result that may be exchanged: it is long, no stub, and not from a tool
/// that keeps a budget of its own.
pub open spec fn eligible(
    ms: Seq<MessageV>,
    budget: ToolResultBudget,
    i: int,
    j: int,
) -> bool {
    &&& is_result(ms, i, j)
    &&& result_text(ms, i, j).len() > budget.per_result_chars
    &&& !stub_text(result_text(ms, i, j))
    &&& tool_named(ms, ms[i].content[j]->tool_use_id) != Some("run_command"@)
}

pub type Slot = (usize, usize);

pub open spec fn slot_len(ms: Seq<MessageV>, s: Slot) -> nat {
    result_text(ms, s.0 as int, s.1 as int).len()
}

pub open spec fn earlier(a: Slot, b: Slot) -> bool {
    a.0 < b.0 || (a.0 == b.0 && a.1 < b.1)
}

/// Longer results go first; of two as long as each other, the earlier one.
pub open spec fn goes_first(ms: Seq<MessageV>, a: Slot, b: Slot) -> bool {
    slot_len(ms, a) > slot_len(ms, b) || (slot_len(ms, a) == slot_len(ms, b) && earlier(a, b))
}

/// `plan` holds exactly the eligible results, in the order of their exchange.
pub open spec fn is_plan(ms: Seq<MessageV>, budget: ToolResultBudget, plan: Seq<Slot>) -> bool {
    &&& forall|k: int|
        0 <= k < plan.len() ==> {
            let s = #[trigger] plan[k];
            eligible(ms, budget, s.0 as int, s.1 as int)
        }
    &&& forall|i: int, j: int| #[trigger]
        eligible(ms, budget, i, j) ==> exists|k: int|
            0 <= k < plan.len() && #[trigger] plan[k] == (i as usize, j as usize)
    &&& forall|a: int, b: int|
        0 <= a < b < plan.len() ==> goes_first(ms, #[trigger] plan[a], #[trigger] plan[b])
}

fn blocks_total(blocks: &Vec<ContentBlock>) -> (r: usize)
    requires
        blocks_chars(block_views(blocks@)) <= usize::MAX,
    ensures
        r == blocks_chars(block_views(blocks@)),
{
    let ghost all = block_views(blocks@);
    let mut sum: usize = 0;
    let mut j: usize = 0;
    assert(all.take(0) =~= Seq::<BlockV>::empty());
    assert(all.take(all.len() as int) =~= all);
    while j < blocks.len()
        invariant
            j <= blocks@.len(),
            all == block_views(blocks@),
            sum == blocks_chars(all.take(j as int)),
            blocks_chars(all) <= usize::MAX,
        decreases blocks@.len() - j,
    {
        proof {
            lemma_blocks_grow(all, j + 1);
            assert(all.take(j + 1).drop_last() =~= all.take(j as int));
        }
        match &blocks[j] {
            ContentBlock::ToolResult { content, .. } => {
                let n: usize = char_count(content.as_str());
                sum += n;
            },
            _ => {},
        }
        j += 1;
    }
    assert(all.take(j as int) =~= all);
    sum
}

pub proof fn lemma_blocks_grow(blocks: Seq<BlockV>, k: int)
    requires
        0 <= k <= blocks.len(),
    ensures
        blocks_chars(blocks.take(k)) <= blocks_chars(blocks),
    decreases blocks.len(),
{
    if k == blocks.len() {
        assert(blocks.take(k) =~= blocks);
    } else {
        assert(blocks.drop_last().take(k) =~= blocks.take(k));
        lemma_blocks_grow(blocks.drop_last(), k);
    }
}

pub proof fn lemma_total_grows(ms: Seq<MessageV>, k: int)
    requires
        0 <= k <= ms.len(),
    ensures
        total_of(ms.take(k)) <= total_of(ms),
    decreases ms.len(),
{
    if k == ms.len() {
        assert(ms.take(k) =~= ms);
    } else {
        assert(ms.drop_last().take(k) =~= ms.take(k));
        lemma_total_grows(ms.drop_last(), k);
    }
}

fn total_chars(messages: &Vec<Message>) -> (r: usize)
    requires
        total_of(message_views(messages@)) <= usize::MAX,
    ensures
        r == total_of(message_views(messages@)),
{
    let ghost all = message_views(messages@);
    let mut sum: usize = 0;
    let mut i: usize = 0;
    assert(all.take(0) =~= Seq::<MessageV>::empty());
    while i < messages.len()
        invariant
            i <= messages@.len(),
            all == message_views(messages@),
            sum == total_of(all.take(i as int)),
            total_of(all) <= usize::MAX,
        decreases messages@.len() - i,
    {
        proof {
            lemma_total_grows(all, i + 1);
            assert(all.take(i + 1).drop_last() =~= all.take(i as int));
        }
        let n: usize = blocks_total(&messages[i].content);
        sum += n;
        i += 1;
    }
    assert(all.take(i as int) =~= all);
    sum
}

/// Does the last tool use with this id name `run_command`? `None` where no
/// block among `blocks` has the id.
fn name_in(blocks: &Vec<ContentBlock>, id: &str) -> (r: Option<String>)
    ensures
        match r {
            Some(n) => name_among(block_views(blocks@), id@) == Some(n@),
            None => name_among(block_views(blocks@), id@) is None,
        },
{
    let ghost all = block_views(blocks@);
    let mut j: usize = blocks.len();
    assert(all.take(all.len() as int) =~= all);
    while j > 0
        invariant
            j <= blocks@.len(),
            all == block_views(blocks@),
            name_among(all, id@) == name_among(all.take(j as int), id@),
        decreases j,
    {
        assert(all.take(j as int).drop_last() =~= all.take(j - 1));
        match &blocks[j - 1] {
            ContentBlock::ToolUse { id: used, name, .. } => {
                if same(used.as_str(), id) {
                    return Some(name.clone());
                }
            },
            _ => {},
        }
        j -= 1;
    }
    None
}

fn name_of(messages: &Vec<Message>, id: &str) -> (r: Option<String>)
    ensures
        match r {
            Some(n) => tool_named(message_views(messages@), id@) == Some(n@),
            None => tool_named(message_views(messages@), id@) is None,
        },
{
    let ghost all = message_views(messages@);
    let mut i: usize = messages.len();
    assert(all.take(all.len() as int) =~= all);
    while i > 0
        invariant
            i <= messages@.len(),
            all == message_views(messages@),
            tool_named(all, id@) == tool_named(all.take(i as int), id@),
        decreases i,
    {
        assert(all.take(i as int).drop_last() =~= all.take(i - 1));
        match name_in(&messages[i - 1].content, id) {
            Some(name) => {
                return Some(name);
            },
            None => {},
        }
        i -= 1;
    }
    None
}

fn is_eligible(messages: &Vec<Message>, budget: &ToolResultBudget, i: usize, j: usize) -> (r:
    Option<usize>)
    requires
        i < messages@.len(),
        j < messages@[i as int].content@.len(),
    ensures
        match r {
            Some(n) => eligible(message_views(messages@), *budget, i as int, j as int) && n
                == slot_len(message_views(messages@), (i, j)),
            None => !eligible(message_views(messages@), *budget, i as int, j as int),
        },
{
    match &messages[i].content[j] {
        ContentBlock::ToolResult { tool_use_id, content } => {
            let n: usize = char_count(content.as_str());
            if n <= budget.per_result_chars || is_stub(content.as_str()) {
                return None;
            }
            match name_of(messages, tool_use_id.as_str()) {
                Some(name) => {
                    if same(name.as_str(), "run_command") {
                        None
                    } else {
                        Some(n)
                    }
                },
                None => Some(n),
            }
        },
        _ => None,
    }
}

/// A plan for the results that stand before `(i, j)`.
pub open spec fn plans_up_to(
    ms: Seq<MessageV>,
    budget: ToolResultBudget,
    plan: Seq<Slot>,
    here: Slot,
) -> bool {
    &&& forall|k: int|
        0 <= k < plan.len() ==> {
            let s = #[trigger] plan[k];
            eligible(ms, budget, s.0 as int, s.1 as int) && earlier(s, here)
        }
    &&& forall|i: int, j: int| #[trigger]
        eligible(ms, budget, i, j) && (i < here.0 || (i == here.0 && j < here.1)) ==> exists|
            k: int,
        |
            0 <= k < plan.len() && #[trigger] plan[k] == (i as usize, j as usize)
    &&& forall|a: int, b: int|
        0 <= a < b < plan.len() ==> goes_first(ms, #[trigger] plan[a], #[trigger] plan[b])
}

fn insert_slot(
    plan: &mut Vec<Slot>,
    lens: &mut Vec<usize>,
    i: usize,
    j: usize,
    n: usize,
    Ghost(ms): Ghost<Seq<MessageV>>,
    Ghost(budget): Ghost<ToolResultBudget>,
)
    requires
        plans_up_to(ms, budget, old(plan)@, (i, j)),
        old(lens)@.len() == old(plan)@.len(),
        forall|k: int|
            0 <= k < old(plan)@.len() ==> old(lens)@[k] == slot_len(ms, #[trigger] old(plan)@[k]),
        eligible(ms, budget, i as int, j as int),
        n == slot_len(ms, (i, j)),
        j < usize::MAX,
    ensures
        plans_up_to(ms, budget, final(plan)@, (i, (j + 1) as usize)),
        final(lens)@.len() == final(plan)@.len(),
        forall|k: int|
            0 <= k < final(plan)@.len() ==> final(lens)@[k] == slot_len(
                ms,
                #[trigger] final(plan)@[k],
            ),
{
    let ghost before = plan@;
    let ghost here: Slot = (i, j);
    let mut pos: usize = plan.len();
    while pos > 0 && lens[pos - 1] < n
        invariant
            pos <= plan@.len() == lens@.len(),
            plan@ == before,
            forall|k: int| 0 <= k < before.len() ==> lens@[k] == slot_len(ms, #[trigger] before[k]),
            forall|k: int| pos <= k < before.len() ==> slot_len(ms, #[trigger] before[k]) < n,
            forall|a: int, b: int|
                0 <= a < b < before.len() ==> goes_first(ms, #[trigger] before[a], #[trigger]
                    before[b]),
        ensures
            pos <= plan@.len() == lens@.len(),
            plan@ == before,
            forall|k: int| pos <= k < before.len() ==> slot_len(ms, #[trigger] before[k]) < n,
            pos > 0 ==> lens@[pos - 1] >= n,
        decreases pos,
    {
        pos -= 1;
    }
    proof {
        assert forall|k: int| 0 <= k < pos implies slot_len(ms, #[trigger] before[k]) >= n by {
            let last = before[pos - 1];
            assert(lens@[pos - 1] == slot_len(ms, last));
            if k < pos - 1 {
                assert(goes_first(ms, before[k], before[pos - 1]));
            }
        }
    }
    plan.insert(pos, (i, j));
    lens.insert(pos, n);
    let ghost after = plan@;
    proof {
        assert(after[pos as int] == here);
        assert forall|x: int, y: int| #[trigger]
            eligible(ms, budget, x, y) && (x < i || (x == i && y < j + 1)) implies exists|k: int|
            0 <= k < after.len() && #[trigger] after[k] == (x as usize, y as usize) by {
            if x == i && y == j {
                assert(after[pos as int] == (x as usize, y as usize));
            } else {
                let k = choose|k: int|
                    0 <= k < before.len() && #[trigger] before[k] == (x as usize, y as usize);
                if k < pos {
                    assert(after[k] == before[k]);
                } else {
                    assert(after[k + 1] == before[k]);
                }
            }
        }
        assert forall|a: int, b: int| 0 <= a < b < after.len() implies goes_first(
            ms,
            #[trigger] after[a],
            #[trigger] after[b],
        ) by {
            let a0 = if a <= pos {
                a
            } else {
                a - 1
            };
            let b0 = if b <= pos {
                b
            } else {
                b - 1
            };
            if a != pos && b != pos {
                assert(after[a] == before[a0]);
                assert(after[b] == before[b0]);
            } else if b == pos {
                assert(after[a] == before[a]);
                assert(earlier(before[a], here));
            } else {
                assert(after[b] == before[b0]);
            }
        }
        assert forall|k: int| 0 <= k < after.len() implies {
            let s = #[trigger] after[k];
            eligible(ms, budget, s.0 as int, s.1 as int) && earlier(s, (i, (j + 1) as usize))
        } by {
            if k < pos {
                assert(after[k] == before[k]);
            } else if k > pos {
                assert(after[k] == before[k - 1]);
            }
        }
        assert forall|k: int| 0 <= k < after.len() implies lens@[k] == slot_len(
            ms,
            #[trigger] after[k],
        ) by {
            if k < pos {
                assert(after[k] == before[k]);
            } else if k > pos {
                assert(after[k] == before[k - 1]);
            }
        }
    }
}

/// The results that may be exchanged, in the order of their exchange.
pub fn trim_plan(messages: &Vec<Message>, budget: &ToolResultBudget) -> (r: Vec<Slot>)
    ensures
        is_plan(message_views(messages@), *budget, r@),
{
    let ghost ms = message_views(messages@);
    let mut plan: Vec<Slot> = Vec::new();
    let mut lens: Vec<usize> = Vec::new();
    let mut i: usize = 0;
    while i < messages.len()
        invariant
            i <= messages@.len(),
            ms == message_views(messages@),
            plans_up_to(ms, *budget, plan@, (i, 0)),
            lens@.len() == plan@.len(),
            forall|k: int| 0 <= k < plan@.len() ==> lens@[k] == slot_len(ms, #[trigger] plan@[k]),
        decreases messages@.len() - i,
    {
        let mut j: usize = 0;
        while j < messages[i].content.len()
            invariant
                i < messages@.len(),
                j <= messages@[i as int].content@.len(),
                ms == message_views(messages@),
                plans_up_to(ms, *budget, plan@, (i, j)),
                lens@.len() == plan@.len(),
                forall|k: int|
                    0 <= k < plan@.len() ==> lens@[k] == slot_len(ms, #[trigger] plan@[k]),
            decreases messages@[i as int].content@.len() - j,
        {
            let ghost before = plan@;
            match is_eligible(messages, budget, i, j) {
                Some(n) => insert_slot(
                    &mut plan,
                    &mut lens,
                    i,
                    j,
                    n,
                    Ghost(ms),
                    Ghost(*budget),
                ),
                None => {},
            }
            j += 1;
        }
        i += 1;
        proof {
            assert(forall|x: int, y: int| #[trigger]
                eligible(ms, *budget, x, y) && x == i - 1 ==> y < j);
        }
    }
    plan
}

// ---- exchanging ------------------------------------------------------------

/// The conversation with one result's text exchanged.
pub open spec fn with_text(ms: Seq<MessageV>, i: int, j: int, text: Seq<char>) -> Seq<MessageV> {
    ms.update(
        i,
        MessageV {
            role: ms[i].role,
            content: ms[i].content.update(
                j,
                BlockV::ToolResult { tool_use_id: ms[i].content[j]->tool_use_id, content: text },
            ),
        },
    )
}

#[verifier::ext_equal]
pub struct TrimV {
    pub messages: Seq<MessageV>,
    pub trimmed: int,
    pub omitted: int,
    pub total: int,
}

pub open spec fn saving(text: Seq<char>, stub: Seq<char>) -> int {
    if text.len() > stub.len() {
        text.len() - stub.len()
    } else {
        0
    }
}

/// One exchange. Nothing happens once the rest fits, or where there is no stub.
pub open spec fn trim_step(st: TrimV, cap: int, s: Slot, stub: Option<Seq<char>>) -> TrimV {
    if st.total <= cap || stub is None {
        st
    } else {
        let saved = saving(result_text(st.messages, s.0 as int, s.1 as int), stub->0);
        TrimV {
            messages: with_text(st.messages, s.0 as int, s.1 as int, stub->0),
            trimmed: st.trimmed + 1,
            omitted: st.omitted + saved,
            total: if st.total > saved {
                st.total - saved
            } else {
                0
            },
        }
    }
}

/// The state after the first `k` slots of the plan were offered.
pub open spec fn trim_run(
    ms: Seq<MessageV>,
    cap: int,
    plan: Seq<Slot>,
    stubs: Seq<Option<Seq<char>>>,
    k: int,
) -> TrimV
    decreases k,
{
    if k <= 0 {
        TrimV { messages: ms, trimmed: 0, omitted: 0, total: total_of(ms) as int }
    } else {
        trim_step(trim_run(ms, cap, plan, stubs, k - 1), cap, plan[k - 1], stubs[k - 1])
    }
}

pub proof fn lemma_blocks_update(blocks: Seq<BlockV>, j: int, block: BlockV)
    requires
        0 <= j < blocks.len(),
    ensures
        blocks_chars(blocks.update(j, block)) + block_chars(blocks[j]) == blocks_chars(blocks)
            + block_chars(block),
    decreases blocks.len(),
{
    let n = blocks.len() - 1;
    if j == n {
        assert(blocks.update(j, block).drop_last() =~= blocks.drop_last());
    } else {
        lemma_blocks_update(blocks.drop_last(), j, block);
        assert(blocks.update(j, block).drop_last() =~= blocks.drop_last().update(j, block));
    }
}

pub proof fn lemma_total_update(ms: Seq<MessageV>, i: int, j: int, text: Seq<char>)
    requires
        is_result(ms, i, j),
    ensures
        total_of(with_text(ms, i, j, text)) + result_text(ms, i, j).len() == total_of(ms)
            + text.len(),
        result_text(ms, i, j).len() <= total_of(ms),
    decreases ms.len(),
{
    let n = ms.len() - 1;
    let block = BlockV::ToolResult {
        tool_use_id: ms[i].content[j]->tool_use_id,
        content: text,
    };
    if i == n {
        lemma_blocks_update(ms[i].content, j, block);
        lemma_blocks_update(
            ms[i].content,
            j,
            BlockV::ToolResult {
                tool_use_id: ms[i].content[j]->tool_use_id,
                content: Seq::<char>::empty(),
            },
        );
        assert(with_text(ms, i, j, text).drop_last() =~= ms.drop_last());
    } else {
        lemma_total_update(ms.drop_last(), i, j, text);
        assert(with_text(ms, i, j, text).drop_last() =~= with_text(ms.drop_last(), i, j, text));
    }
}

/// Tool uses are not touched by an exchange, so every id keeps its name.
pub proof fn lemma_names_stay(ms: Seq<MessageV>, i: int, j: int, text: Seq<char>, id: Seq<char>)
    requires
        is_result(ms, i, j),
    ensures
        tool_named(with_text(ms, i, j, text), id) == tool_named(ms, id),
    decreases ms.len(),
{
    let n = ms.len() - 1;
    if i == n {
        lemma_block_names_stay(ms[i].content, j, ms[i].content[j]->tool_use_id, text, id);
        assert(with_text(ms, i, j, text).drop_last() =~= ms.drop_last());
    } else {
        lemma_names_stay(ms.drop_last(), i, j, text, id);
        assert(with_text(ms, i, j, text).drop_last() =~= with_text(ms.drop_last(), i, j, text));
    }
}

proof fn lemma_block_names_stay(
    blocks: Seq<BlockV>,
    j: int,
    result_id: Seq<char>,
    text: Seq<char>,
    id: Seq<char>,
)
    requires
        0 <= j < blocks.len(),
        blocks[j] is ToolResult,
    ensures
        name_among(
            blocks.update(j, BlockV::ToolResult { tool_use_id: result_id, content: text }),
            id,
        ) == name_among(blocks, id),
    decreases blocks.len(),
{
    let n = blocks.len() - 1;
    let block = BlockV::ToolResult { tool_use_id: result_id, content: text };
    if j == n {
        assert(blocks.update(j, block).drop_last() =~= blocks.drop_last());
    } else {
        lemma_block_names_stay(blocks.drop_last(), j, result_id, text, id);
        assert(blocks.update(j, block).drop_last() =~= blocks.drop_last().update(j, block));
    }
}

/// What a run leaves as it was: the shape of the conversation, everything that
/// is no result, every tool's name, and the slots that were not offered yet.
pub proof fn lemma_run_frame(
    ms: Seq<MessageV>,
    budget: ToolResultBudget,
    plan: Seq<Slot>,
    stubs: Seq<Option<Seq<char>>>,
    k: int,
)
    requires
        is_plan(ms, budget, plan),
        0 <= k <= plan.len(),
    ensures
        ({
            let st = trim_run(ms, budget.total_chars as int, plan, stubs, k);
            &&& st.messages.len() == ms.len()
            &&& st.trimmed >= 0
            &&& forall|i: int|
                0 <= i < ms.len() ==> (#[trigger] st.messages[i]).role == ms[i].role
                    && st.messages[i].content.len() == ms[i].content.len()
            &&& forall|i: int, j: int| #[trigger]
                is_result(st.messages, i, j) == is_result(ms, i, j)
            &&& forall|i: int, j: int|
                is_result(ms, i, j) ==> (#[trigger] st.messages[i].content[j])->tool_use_id
                    == ms[i].content[j]->tool_use_id
            &&& forall|i: int, j: int|
                0 <= i < ms.len() && 0 <= j < ms[i].content.len() && (forall|m: int|
                    0 <= m < k ==> #[trigger] plan[m] != (i as usize, j as usize))
                    ==> #[trigger] st.messages[i].content[j] == ms[i].content[j]
            &&& forall|id: Seq<char>| #[trigger]
                tool_named(st.messages, id) == tool_named(ms, id)
        }),
    decreases k,
{
    let cap = budget.total_chars as int;
    if k > 0 {
        lemma_run_frame(ms, budget, plan, stubs, k - 1);
        let st = trim_run(ms, cap, plan, stubs, k - 1);
        let next = trim_run(ms, cap, plan, stubs, k);
        let s = plan[k - 1];
        let i = s.0 as int;
        let j = s.1 as int;
        assert(eligible(ms, budget, i, j));
        assert(is_result(st.messages, i, j));
        if next != st {
            let text = stubs[k - 1]->0;
            assert(next.messages == with_text(st.messages, i, j, text));
            assert forall|id: Seq<char>| #[trigger]
                tool_named(next.messages, id) == tool_named(ms, id) by {
                lemma_names_stay(st.messages, i, j, text, id);
                assert(tool_named(st.messages, id) == tool_named(ms, id));
            }
            assert forall|x: int, y: int| #[trigger]
                is_result(next.messages, x, y) == is_result(ms, x, y) by {
                assert(is_result(st.messages, x, y) == is_result(ms, x, y));
                if x == i && y == j {
                } else if 0 <= x < ms.len() && 0 <= y < ms[x].content.len() {
                    assert(next.messages[x].content[y] == st.messages[x].content[y]);
                }
            }
            assert forall|x: int, y: int| is_result(ms, x, y) implies (
            #[trigger] next.messages[x].content[y])->tool_use_id == ms[x].content[y]->tool_use_id by {
                assert(st.messages[x].content[y]->tool_use_id == ms[x].content[y]->tool_use_id);
            }
            assert forall|x: int, y: int|
                0 <= x < ms.len() && 0 <= y < ms[x].content.len() && (forall|m: int|
                    0 <= m < k ==> #[trigger] plan[m] != (x as usize, y as usize))
                implies #[trigger] next.messages[x].content[y] == ms[x].content[y] by {
                assert(plan[k - 1] != (x as usize, y as usize));
                assert(st.messages[x].content[y] == ms[x].content[y]);
            }
        }
    } else {
        assert(trim_run(ms, cap, plan, stubs, k).messages == ms);
    }
}

/// A slot further down the plan still holds its text.
pub proof fn lemma_later_slot(
    ms: Seq<MessageV>,
    budget: ToolResultBudget,
    plan: Seq<Slot>,
    stubs: Seq<Option<Seq<char>>>,
    k: int,
    later: int,
)
    requires
        is_plan(ms, budget, plan),
        0 <= k <= later < plan.len(),
    ensures
        ({
            let st = trim_run(ms, budget.total_chars as int, plan, stubs, k);
            let s = plan[later];
            &&& is_result(st.messages, s.0 as int, s.1 as int)
            &&& st.messages[s.0 as int].content[s.1 as int] == ms[s.0 as int].content[s.1 as int]
        }),
{
    lemma_run_frame(ms, budget, plan, stubs, k);
    let s = plan[later];
    assert(eligible(ms, budget, s.0 as int, s.1 as int));
    assert forall|m: int| 0 <= m < k implies #[trigger] plan[m] != (
        s.0 as int as usize,
        s.1 as int as usize,
    ) by {
        assert(goes_first(ms, plan[m], plan[later]));
    }
    let st = trim_run(ms, budget.total_chars as int, plan, stubs, k);
    assert(is_result(st.messages, s.0 as int, s.1 as int) == is_result(
        ms,
        s.0 as int,
        s.1 as int,
    ));
}

/// What is omitted is taken from the results of the plan, so it never exceeds
/// what the conversation held.
pub proof fn lemma_omitted_bound(
    ms: Seq<MessageV>,
    budget: ToolResultBudget,
    plan: Seq<Slot>,
    stubs: Seq<Option<Seq<char>>>,
    k: int,
) -> (hollow: Seq<MessageV>)
    requires
        is_plan(ms, budget, plan),
        0 <= k <= plan.len(),
    ensures
        ({
            let st = trim_run(ms, budget.total_chars as int, plan, stubs, k);
            &&& 0 <= st.omitted
            &&& st.omitted + total_of(hollow) <= total_of(ms)
            &&& 0 <= st.total <= total_of(ms)
            &&& 0 <= st.trimmed <= k
            &&& hollow.len() == ms.len()
            &&& forall|m: int|
                k <= m < plan.len() ==> {
                    let s = #[trigger] plan[m];
                    is_result(hollow, s.0 as int, s.1 as int) && hollow[s.0 as int].content[s.1 as int]
                        == ms[s.0 as int].content[s.1 as int]
                }
        }),
    decreases k,
{
    let cap = budget.total_chars as int;
    if k == 0 {
        assert forall|m: int| 0 <= m < plan.len() implies {
            let s = #[trigger] plan[m];
            is_result(ms, s.0 as int, s.1 as int)
        } by {
            assert(eligible(ms, budget, plan[m].0 as int, plan[m].1 as int));
        }
        ms
    } else {
        let before = lemma_omitted_bound(ms, budget, plan, stubs, k - 1);
        let st = trim_run(ms, cap, plan, stubs, k - 1);
        let s = plan[k - 1];
        let i = s.0 as int;
        let j = s.1 as int;
        lemma_later_slot(ms, budget, plan, stubs, k - 1, k - 1);
        lemma_total_update(before, i, j, Seq::<char>::empty());
        let hollow = with_text(before, i, j, Seq::<char>::empty());
        assert forall|m: int| k <= m < plan.len() implies {
            let t = #[trigger] plan[m];
            is_result(hollow, t.0 as int, t.1 as int) && hollow[t.0 as int].content[t.1 as int]
                == ms[t.0 as int].content[t.1 as int]
        } by {
            assert(goes_first(ms, plan[k - 1], plan[m]));
            assert(plan[m] != s);
        }
        hollow
    }
}

/// `stub` is what `make` was given back for this text.
pub open spec fn made_by<F: Fn(String, usize) -> Option<String>>(
    make: F,
    text: Seq<char>,
    size: int,
    stub: Option<Seq<char>>,
) -> bool {
    exists|t: String, n: usize, o: Option<String>|
        t@ == text && n == size && #[trigger] make.ensures((t, n), o) && match o {
            Some(s) => stub == Some(s@),
            None => stub is None,
        }
}

/// Exchanges results for stubs until the conversation is within its budget.
/// `make` turns a text into a stub of about the given size; it may decline.
pub fn trim_tool_results<F: Fn(String, usize) -> Option<String>>(
    messages: &mut Vec<Message>,
    budget: &ToolResultBudget,
    make: F,
) -> (r: TrimReport)
    requires
        total_of(message_views(old(messages)@)) <= usize::MAX,
        forall|t: String, n: usize| make.requires((t, n)),
    ensures
        trims(message_views(old(messages)@), *budget, make, *final(messages), r),
        same_shape(message_views(old(messages)@), message_views(final(messages)@)),
{
    let ghost ms = message_views(messages@);
    if !budget.enabled() {
        return TrimReport {
            trimmed: 0,
            omitted_chars: 0,
            total_chars: 0,
            still_over_budget: false,
        };
    }
    let start: usize = total_chars(messages);
    let mut report = TrimReport {
        trimmed: 0,
        omitted_chars: 0,
        total_chars: start,
        still_over_budget: false,
    };
    if start <= budget.total_chars {
        return report;
    }
    let plan = trim_plan(messages, budget);
    let size: usize = stub_budget(budget);
    let ghost cap = budget.total_chars as int;
    let ghost mut stubs: Seq<Option<Seq<char>>> = Seq::empty();
    let mut k: usize = 0;
    while k < plan.len()
        invariant
            k <= plan@.len(),
            is_plan(ms, *budget, plan@),
            total_of(ms) <= usize::MAX,
            cap == budget.total_chars,
            size == stub_size(*budget),
            stubs.len() == k,
            forall|t: String, n: usize| make.requires((t, n)),
            message_views(messages@) == trim_run(ms, cap, plan@, stubs, k as int).messages,
            report.trimmed == trim_run(ms, cap, plan@, stubs, k as int).trimmed,
            report.omitted_chars == trim_run(ms, cap, plan@, stubs, k as int).omitted,
            report.total_chars == trim_run(ms, cap, plan@, stubs, k as int).total,
            forall|m: int|
                0 <= m < k && trim_run(ms, cap, plan@, stubs, m).total > cap ==> made_by(
                    make,
                    #[trigger] result_text(ms, plan@[m].0 as int, plan@[m].1 as int),
                    size as int,
                    stubs[m],
                ),
        decreases plan@.len() - k,
    {
        let i: usize = plan[k].0;
        let j: usize = plan[k].1;
        let ghost st = trim_run(ms, cap, plan@, stubs, k as int);
        proof {
            lemma_later_slot(ms, *budget, plan@, stubs, k as int, k as int);
            assert(messages@.len() == message_views(messages@).len());
            assert(messages@[i as int].content@.len() == message_views(
                messages@,
            )[i as int].content.len());
        }
        let ghost old_stubs = stubs;
        let ghost mut given: Option<Seq<char>> = None;
        if report.total_chars > budget.total_chars {
            let text = copy_result(messages, i, j);
            let ghost asked = text@;
            let n: usize = char_count(text.as_str());
            let stub = make(text, size);
            match stub {
                None => {
                    proof {
                        assert(made_by(make, asked, size as int, given));
                    }
                },
                Some(short) => {
                    proof {
                        given = Some(short@);
                        assert(made_by(make, asked, size as int, given));
                        let _ = lemma_omitted_bound(
                            ms,
                            *budget,
                            plan@,
                            old_stubs.push(given),
                            k + 1,
                        );
                        lemma_run_prefix(ms, cap, plan@, old_stubs, given, k as int);
                    }
                    let m: usize = char_count(short.as_str());
                    let saved: usize = if n > m {
                        n - m
                    } else {
                        0
                    };
                    set_result_text(messages, i, j, short);
                    report.trimmed = report.trimmed + 1;
                    report.omitted_chars = report.omitted_chars + saved;
                    report.total_chars = if report.total_chars > saved {
                        report.total_chars - saved
                    } else {
                        0
                    };
                },
            }
        }
        proof {
            lemma_run_prefix(ms, cap, plan@, old_stubs, given, k as int);
            stubs = old_stubs.push(given);
            assert forall|m: int|
                0 <= m < k + 1 && trim_run(ms, cap, plan@, stubs, m).total > cap implies made_by(
                make,
                #[trigger] result_text(ms, plan@[m].0 as int, plan@[m].1 as int),
                size as int,
                stubs[m],
            ) by {
                if m < k {
                    lemma_run_same(ms, cap, plan@, old_stubs, stubs, m);
                    assert(stubs[m] == old_stubs[m]);
                }
            }
        }
        k += 1;
    }
    report.still_over_budget = report.total_chars > budget.total_chars;
    proof {
        assert(trimmed_along(ms, *budget, make, plan@, stubs, *messages, report));
        trimming_keeps_the_shape(ms, *budget, plan@, stubs, plan@.len() as int);
    }
    report
}

/// The conversation and the report that a run along `plan` ends in, where the
/// stubs are what `make` gave for the slots that were still to be exchanged.
pub open spec fn trimmed_along<F: Fn(String, usize) -> Option<String>>(
    ms: Seq<MessageV>,
    budget: ToolResultBudget,
    make: F,
    plan: Seq<Slot>,
    stubs: Seq<Option<Seq<char>>>,
    after: Vec<Message>,
    report: TrimReport,
) -> bool {
    let cap = budget.total_chars as int;
    let end = trim_run(ms, cap, plan, stubs, plan.len() as int);
    &&& is_plan(ms, budget, plan)
    &&& stubs.len() == plan.len()
    &&& forall|k: int|
        0 <= k < plan.len() && trim_run(ms, cap, plan, stubs, k).total > cap ==> made_by(
            make,
            #[trigger] result_text(ms, plan[k].0 as int, plan[k].1 as int),
            stub_size(budget),
            stubs[k],
        )
    &&& message_views(after@) == end.messages
    &&& report.trimmed == end.trimmed
    &&& report.omitted_chars == end.omitted
    &&& report.total_chars == end.total
    &&& report.still_over_budget == (end.total > cap)
}

/// What trimming does: nothing where it is off or where all fits, and else a run
/// along a plan.
pub open spec fn trims<F: Fn(String, usize) -> Option<String>>(
    ms: Seq<MessageV>,
    budget: ToolResultBudget,
    make: F,
    after: Vec<Message>,
    report: TrimReport,
) -> bool {
    if !budget.on() {
        &&& message_views(after@) == ms
        &&& report == (TrimReport {
            trimmed: 0,
            omitted_chars: 0,
            total_chars: 0,
            still_over_budget: false,
        })
    } else if total_of(ms) <= budget.total_chars {
        &&& message_views(after@) == ms
        &&& report == (TrimReport {
            trimmed: 0,
            omitted_chars: 0,
            total_chars: total_of(ms) as usize,
            still_over_budget: false,
        })
    } else {
        exists|plan: Seq<Slot>, stubs: Seq<Option<Seq<char>>>| #[trigger]
            trimmed_along(ms, budget, make, plan, stubs, after, report)
    }
}

proof fn lemma_run_same(
    ms: Seq<MessageV>,
    cap: int,
    plan: Seq<Slot>,
    a: Seq<Option<Seq<char>>>,
    b: Seq<Option<Seq<char>>>,
    k: int,
)
    requires
        forall|m: int| 0 <= m < k ==> a[m] == b[m],
    ensures
        trim_run(ms, cap, plan, a, k) == trim_run(ms, cap, plan, b, k),
    decreases k,
{
    if k > 0 {
        lemma_run_same(ms, cap, plan, a, b, k - 1);
    }
}

proof fn lemma_run_prefix(
    ms: Seq<MessageV>,
    cap: int,
    plan: Seq<Slot>,
    stubs: Seq<Option<Seq<char>>>,
    given: Option<Seq<char>>,
    k: int,
)
    requires
        stubs.len() == k,
        k >= 0,
    ensures
        trim_run(ms, cap, plan, stubs.push(given), k) == trim_run(ms, cap, plan, stubs, k),
        trim_run(ms, cap, plan, stubs.push(given), k + 1) == trim_step(
            trim_run(ms, cap, plan, stubs, k),
            cap,
            plan[k],
            given,
        ),
{
    lemma_run_same(ms, cap, plan, stubs.push(given), stubs, k);
}

fn copy_result(messages: &Vec<Message>, i: usize, j: usize) -> (r: String)
    requires
        is_result(message_views(messages@), i as int, j as int),
    ensures
        r@ == result_text(message_views(messages@), i as int, j as int),
{
    assert(messages@[i as int].content@.len() == message_views(
        messages@,
    )[i as int].content.len());
    assert(message_views(messages@)[i as int].content[j as int]
        == messages@[i as int].content@[j as int]@);
    match &messages[i].content[j] {
        ContentBlock::ToolResult { content, .. } => content.clone(),
        _ => String::new(),
    }
}

fn set_result_text(messages: &mut Vec<Message>, i: usize, j: usize, text: String)
    requires
        is_result(message_views(old(messages)@), i as int, j as int),
    ensures
        message_views(final(messages)@) == with_text(
            message_views(old(messages)@),
            i as int,
            j as int,
            text@,
        ),
{
    let ghost before = message_views(messages@);
    assert(messages@[i as int].content@.len() == before[i as int].content.len());
    assert(before[i as int].content[j as int] == messages@[i as int].content@[j as int]@);
    let id = match &messages[i].content[j] {
        ContentBlock::ToolResult { tool_use_id, .. } => tool_use_id.clone(),
        _ => String::new(),
    };
    let ghost old_content = messages@[i as int].content@;
    let block = ContentBlock::ToolResult { tool_use_id: id, content: text };
    messages[i].content.set(j, block);
    assert(block_views(messages@[i as int].content@) =~= before[i as int].content.update(
        j as int,
        block@,
    ));
    assert(message_views(messages@) =~= with_text(before, i as int, j as int, text@));
}

// ---- what trimming promises ------------------------------------------------

/// A conversation whose places have machine-sized indices.
pub open spec fn indexable(ms: Seq<MessageV>) -> bool {
    ms.len() <= usize::MAX && forall|i: int|
        0 <= i < ms.len() ==> (#[trigger] ms[i]).content.len() <= usize::MAX
}

/// Every stub that was made says that it is one, and none is longer than the text
/// it stands for. For some texts none may have been made.
pub open spec fn sound_stubs(
    ms: Seq<MessageV>,
    plan: Seq<Slot>,
    stubs: Seq<Option<Seq<char>>>,
) -> bool {
    &&& stubs.len() == plan.len()
    &&& forall|k: int|
        0 <= k < plan.len() && (#[trigger] stubs[k]) is Some ==> stub_text(stubs[k]->0)
            && stubs[k]->0.len() <= slot_len(ms, plan[k])
}

/// The same block, or a result of the same call.
pub open spec fn same_place(a: BlockV, b: BlockV) -> bool {
    a == b || (a matches BlockV::ToolResult { tool_use_id: x, .. } && (
    b matches BlockV::ToolResult { tool_use_id: y, .. } && x == y))
}

/// The same messages, but for what the results say.
pub open spec fn same_shape(a: Seq<MessageV>, b: Seq<MessageV>) -> bool {
    &&& a.len() == b.len()
    &&& forall|i: int|
        0 <= i < a.len() ==> (#[trigger] a[i]).role == b[i].role && a[i].content.len()
            == b[i].content.len()
    &&& forall|i: int, j: int|
        0 <= i < a.len() && 0 <= j < a[i].content.len() ==> same_place(
            #[trigger] a[i].content[j],
            b[i].content[j],
        )
}

/// A run exchanges what results say, and nothing else: every result still
/// answers the call that it answered.
pub proof fn trimming_keeps_the_shape(
    ms: Seq<MessageV>,
    budget: ToolResultBudget,
    plan: Seq<Slot>,
    stubs: Seq<Option<Seq<char>>>,
    k: int,
)
    requires
        is_plan(ms, budget, plan),
        0 <= k <= plan.len(),
    ensures
        same_shape(ms, trim_run(ms, budget.total_chars as int, plan, stubs, k).messages),
    decreases k,
{
    let cap = budget.total_chars as int;
    if k > 0 {
        trimming_keeps_the_shape(ms, budget, plan, stubs, k - 1);
        lemma_run_frame(ms, budget, plan, stubs, k - 1);
        let st = trim_run(ms, cap, plan, stubs, k - 1);
        let next = trim_run(ms, cap, plan, stubs, k);
        let i = plan[k - 1].0 as int;
        let j = plan[k - 1].1 as int;
        assert(eligible(ms, budget, i, j));
        assert(is_result(st.messages, i, j));
        if next != st {
            assert(next.messages == with_text(st.messages, i, j, stubs[k - 1]->0));
            assert forall|x: int, y: int|
                0 <= x < ms.len() && 0 <= y < ms[x].content.len() implies same_place(
                #[trigger] ms[x].content[y],
                next.messages[x].content[y],
            ) by {
                assert(same_place(ms[x].content[y], st.messages[x].content[y]));
                if x != i || y != j {
                    assert(next.messages[x].content[y] == st.messages[x].content[y]);
                }
            }
        }
    }
}

/// Small results, results of a tool with a budget of its own, stubs, and
/// everything that is no result at all come out of a run as they were.
pub proof fn trimming_spares_the_rest(
    ms: Seq<MessageV>,
    budget: ToolResultBudget,
    plan: Seq<Slot>,
    stubs: Seq<Option<Seq<char>>>,
    i: int,
    j: int,
)
    requires
        indexable(ms),
        is_plan(ms, budget, plan),
        0 <= i < ms.len(),
        0 <= j < ms[i].content.len(),
        !eligible(ms, budget, i, j),
    ensures
        trim_run(
            ms,
            budget.total_chars as int,
            plan,
            stubs,
            plan.len() as int,
        ).messages[i].content[j] == ms[i].content[j],
{
    lemma_run_frame(ms, budget, plan, stubs, plan.len() as int);
    assert(ms[i].content.len() <= usize::MAX);
    assert forall|m: int| 0 <= m < plan.len() implies #[trigger] plan[m] != (
        i as usize,
        j as usize,
    ) by {
        assert(eligible(ms, budget, plan[m].0 as int, plan[m].1 as int));
    }
}

/// With stubs that are no longer than their texts, the total that a run reports
/// is the total that the conversation then holds.
pub proof fn trimming_tells_the_true_total(
    ms: Seq<MessageV>,
    budget: ToolResultBudget,
    plan: Seq<Slot>,
    stubs: Seq<Option<Seq<char>>>,
    k: int,
)
    requires
        is_plan(ms, budget, plan),
        stubs.len() == plan.len(),
        forall|m: int|
            0 <= m < plan.len() && (#[trigger] stubs[m]) is Some ==> stubs[m]->0.len() <= slot_len(
                ms,
                plan[m],
            ),
        0 <= k <= plan.len(),
    ensures
        ({
            let st = trim_run(ms, budget.total_chars as int, plan, stubs, k);
            st.total == total_of(st.messages)
        }),
    decreases k,
{
    if k > 0 {
        trimming_tells_the_true_total(ms, budget, plan, stubs, k - 1);
        let st = trim_run(ms, budget.total_chars as int, plan, stubs, k - 1);
        let s = plan[k - 1];
        lemma_later_slot(ms, budget, plan, stubs, k - 1, k - 1);
        if st.total > budget.total_chars && stubs[k - 1] is Some {
            lemma_total_update(st.messages, s.0 as int, s.1 as int, stubs[k - 1]->0);
        }
    }
}

proof fn lemma_exchanged(
    ms: Seq<MessageV>,
    budget: ToolResultBudget,
    plan: Seq<Slot>,
    stubs: Seq<Option<Seq<char>>>,
    k: int,
    m: int,
)
    requires
        is_plan(ms, budget, plan),
        sound_stubs(ms, plan, stubs),
        0 <= m < k <= plan.len(),
        trim_run(ms, budget.total_chars as int, plan, stubs, k).total > budget.total_chars,
    ensures
        ({
            let st = trim_run(ms, budget.total_chars as int, plan, stubs, k);
            let s = plan[m];
            result_text(st.messages, s.0 as int, s.1 as int) == match stubs[m] {
                Some(stub) => stub,
                None => result_text(ms, s.0 as int, s.1 as int),
            }
        }),
    decreases k,
{
    let cap = budget.total_chars as int;
    let st = trim_run(ms, cap, plan, stubs, k - 1);
    let s = plan[k - 1];
    lemma_later_slot(ms, budget, plan, stubs, k - 1, k - 1);
    assert(st.total > cap);
    if m < k - 1 {
        lemma_exchanged(ms, budget, plan, stubs, k - 1, m);
        assert(goes_first(ms, plan[m], plan[k - 1]));
        assert(plan[m] != s);
        lemma_run_frame(ms, budget, plan, stubs, k - 1);
        assert(eligible(ms, budget, plan[m].0 as int, plan[m].1 as int));
        assert(is_result(st.messages, plan[m].0 as int, plan[m].1 as int) == is_result(
            ms,
            plan[m].0 as int,
            plan[m].1 as int,
        ));
    }
}

/// The maker has a stub for no text that it declined before: what is offered
/// again, it declines again.
pub open spec fn declines_again(
    plan: Seq<Slot>,
    stubs: Seq<Option<Seq<char>>>,
    again: Seq<Slot>,
    more: Seq<Option<Seq<char>>>,
) -> bool {
    forall|k: int, m: int|
        0 <= k < again.len() && 0 <= m < plan.len() && #[trigger] again[k] == #[trigger] plan[m]
            && stubs[m] is None ==> more[k] is None
}

/// After a run whose stubs say that they are stubs, the conversation fits, or all
/// that is left to exchange is what no stub could be made of.
proof fn lemma_nothing_left(
    ms: Seq<MessageV>,
    budget: ToolResultBudget,
    plan: Seq<Slot>,
    stubs: Seq<Option<Seq<char>>>,
    i: int,
    j: int,
)
    requires
        indexable(ms),
        is_plan(ms, budget, plan),
        sound_stubs(ms, plan, stubs),
        ({
            let st = trim_run(ms, budget.total_chars as int, plan, stubs, plan.len() as int);
            total_of(st.messages) > budget.total_chars && eligible(st.messages, budget, i, j)
        }),
    ensures
        exists|m: int|
            0 <= m < plan.len() && #[trigger] plan[m] == (i as usize, j as usize) && stubs[m]
                is None,
{
    let n = plan.len() as int;
    let end = trim_run(ms, budget.total_chars as int, plan, stubs, n).messages;
    trimming_tells_the_true_total(ms, budget, plan, stubs, n);
    lemma_run_frame(ms, budget, plan, stubs, n);
    assert(is_result(end, i, j) == is_result(ms, i, j));
    assert(ms[i].content.len() <= usize::MAX);
    if exists|m: int| 0 <= m < plan.len() && #[trigger] plan[m] == (i as usize, j as usize) {
        let m = choose|m: int|
            0 <= m < plan.len() && #[trigger] plan[m] == (i as usize, j as usize);
        lemma_exchanged(ms, budget, plan, stubs, n, m);
        if stubs[m] is Some {
            assert(stub_text(stubs[m]->0));
        }
    } else {
        assert(end[i].content[j] == ms[i].content[j]);
        assert(tool_named(end, ms[i].content[j]->tool_use_id) == tool_named(
            ms,
            ms[i].content[j]->tool_use_id,
        ));
        assert(eligible(ms, budget, i, j));
    }
}

proof fn lemma_all_declined(
    ms: Seq<MessageV>,
    cap: int,
    plan: Seq<Slot>,
    stubs: Seq<Option<Seq<char>>>,
    k: int,
)
    requires
        0 <= k <= plan.len(),
        total_of(ms) <= cap || forall|m: int| 0 <= m < plan.len() ==> (#[trigger] stubs[m]) is None,
    ensures
        trim_run(ms, cap, plan, stubs, k) == trim_run(ms, cap, plan, stubs, 0),
    decreases k,
{
    if k > 0 {
        lemma_all_declined(ms, cap, plan, stubs, k - 1);
    }
}

/// Trimming is idempotent: a second run, with a maker that declines what it
/// declined before, leaves the conversation as the first run left it. Where the
/// maker never declines, nothing is even left to offer.
pub proof fn trimming_twice_is_trimming_once(
    ms: Seq<MessageV>,
    budget: ToolResultBudget,
    plan: Seq<Slot>,
    stubs: Seq<Option<Seq<char>>>,
    again: Seq<Slot>,
    more: Seq<Option<Seq<char>>>,
)
    requires
        indexable(ms),
        is_plan(ms, budget, plan),
        sound_stubs(ms, plan, stubs),
        is_plan(
            trim_run(ms, budget.total_chars as int, plan, stubs, plan.len() as int).messages,
            budget,
            again,
        ),
        more.len() == again.len(),
        declines_again(plan, stubs, again, more),
    ensures
        ({
            let cap = budget.total_chars as int;
            let end = trim_run(ms, cap, plan, stubs, plan.len() as int).messages;
            let last = trim_run(end, cap, again, more, again.len() as int);
            &&& last.messages == end
            &&& last.trimmed == 0
            &&& (forall|m: int| 0 <= m < plan.len() ==> (#[trigger] stubs[m]) is Some)
                ==> total_of(end) <= cap || again.len() == 0
        }),
{
    let n = plan.len() as int;
    let cap = budget.total_chars as int;
    let end = trim_run(ms, cap, plan, stubs, n).messages;
    if total_of(end) > cap {
        assert forall|k: int| 0 <= k < again.len() implies (#[trigger] more[k]) is None && (exists|
            m: int,
        |
            0 <= m < plan.len() && (#[trigger] stubs[m]) is None) by {
            let s = again[k];
            assert(eligible(end, budget, s.0 as int, s.1 as int));
            lemma_nothing_left(ms, budget, plan, stubs, s.0 as int, s.1 as int);
            let m = choose|m: int|
                0 <= m < plan.len() && #[trigger] plan[m] == (s.0 as int as usize, s.1 as int as usize)
                    && stubs[m] is None;
            assert(again[k] == plan[m]);
            assert(stubs[m] is None);
        }
        if again.len() > 0 {
            assert(more[0] is None);
        }
    }
    lemma_all_declined(end, cap, again, more, again.len() as int);
}

pub open spec fn path_len(path: Option<Seq<char>>) -> Option<nat> {
    match path {
        Some(p) => Some(p.len()),
        None => None,
    }
}

/// What it makes are the stubs of [`stub`], and the paths that they name have one
/// length, or none of them names one.
pub open spec fn makes_stubs<F: Fn(String, usize) -> Option<String>>(
    make: F,
    width: Option<nat>,
) -> bool {
    forall|t: String, n: usize, o: Option<String>| #[trigger]
        make.ensures((t, n), o) ==> is_stub_of(opt_text(o), t@, n as int, width)
}

pub open spec fn is_stub_of(
    stub: Option<Seq<char>>,
    text: Seq<char>,
    keep: int,
    width: Option<nat>,
) -> bool {
    exists|path: Option<Seq<char>>| #[trigger]
        path_len(path) == width && stub == stub_of(text, keep, path)
}

/// Whether a text has a stub depends on the length of the path alone.
proof fn lemma_stub_width(
    a: Option<Seq<char>>,
    b: Option<Seq<char>>,
    text: Seq<char>,
    keep: int,
    width: Option<nat>,
)
    requires
        is_stub_of(a, text, keep, width),
        is_stub_of(b, text, keep, width),
    ensures
        a is None <==> b is None,
{
    let p = choose|path: Option<Seq<char>>| #[trigger]
        path_len(path) == width && a == stub_of(text, keep, path);
    let q = choose|path: Option<Seq<char>>| #[trigger]
        path_len(path) == width && b == stub_of(text, keep, path);
    assert(stub_words(text, keep, p).len() == stub_words(text, keep, q).len());
}

proof fn lemma_made<F: Fn(String, usize) -> Option<String>>(
    make: F,
    width: Option<nat>,
    text: Seq<char>,
    size: int,
    stub: Option<Seq<char>>,
)
    requires
        makes_stubs(make, width),
        made_by(make, text, size, stub),
    ensures
        is_stub_of(stub, text, size, width),
{
    let (t, n, o) = choose|t: String, n: usize, o: Option<String>|
        t@ == text && n == size && #[trigger] make.ensures((t, n), o) && match o {
            Some(s) => stub == Some(s@),
            None => stub is None,
        };
    assert(opt_text(o) == stub);
}

/// The stubs that were asked for.
pub open spec fn asked_stubs(
    ms: Seq<MessageV>,
    cap: int,
    plan: Seq<Slot>,
    stubs: Seq<Option<Seq<char>>>,
) -> Seq<Option<Seq<char>>> {
    Seq::new(
        plan.len(),
        |k: int|
            if trim_run(ms, cap, plan, stubs, k).total > cap {
                stubs[k]
            } else {
                None
            },
    )
}

proof fn lemma_asked(
    ms: Seq<MessageV>,
    cap: int,
    plan: Seq<Slot>,
    stubs: Seq<Option<Seq<char>>>,
    k: int,
)
    requires
        0 <= k <= plan.len(),
    ensures
        trim_run(ms, cap, plan, asked_stubs(ms, cap, plan, stubs), k) == trim_run(
            ms,
            cap,
            plan,
            stubs,
            k,
        ),
    decreases k,
{
    if k > 0 {
        lemma_asked(ms, cap, plan, stubs, k - 1);
    }
}

/// A run that ends over the budget was over it all along.
proof fn lemma_over_all_along(
    ms: Seq<MessageV>,
    cap: int,
    plan: Seq<Slot>,
    stubs: Seq<Option<Seq<char>>>,
    k: int,
    n: int,
)
    requires
        0 <= k <= n,
        trim_run(ms, cap, plan, stubs, n).total > cap,
    ensures
        trim_run(ms, cap, plan, stubs, k).total > cap,
    decreases n,
{
    if k < n {
        lemma_over_all_along(ms, cap, plan, stubs, k, n - 1);
    }
}

/// The first run of two, along its plan, with the stubs that were asked for.
pub open spec fn first_run<F: Fn(String, usize) -> Option<String>>(
    ms: Seq<MessageV>,
    budget: ToolResultBudget,
    make: F,
    width: Option<nat>,
    plan: Seq<Slot>,
    stubs: Seq<Option<Seq<char>>>,
) -> bool {
    let cap = budget.total_chars as int;
    &&& indexable(ms)
    &&& makes_stubs(make, width)
    &&& is_plan(ms, budget, plan)
    &&& sound_stubs(ms, plan, stubs)
    &&& forall|k: int|
        0 <= k < plan.len() && trim_run(ms, cap, plan, stubs, k).total > cap ==> is_stub_of(
            stubs[k],
            #[trigger] result_text(ms, plan[k].0 as int, plan[k].1 as int),
            stub_size(budget),
            width,
        )
}

proof fn lemma_first_run<F: Fn(String, usize) -> Option<String>>(
    ms: Seq<MessageV>,
    budget: ToolResultBudget,
    make: F,
    width: Option<nat>,
    plan: Seq<Slot>,
    stubs: Seq<Option<Seq<char>>>,
    after: Vec<Message>,
    report: TrimReport,
)
    requires
        indexable(ms),
        makes_stubs(make, width),
        trimmed_along(ms, budget, make, plan, stubs, after, report),
    ensures
        ({
            let cap = budget.total_chars as int;
            let asked = asked_stubs(ms, cap, plan, stubs);
            &&& first_run(ms, budget, make, width, plan, asked)
            &&& message_views(after@) == trim_run(
                ms,
                cap,
                plan,
                asked,
                plan.len() as int,
            ).messages
        }),
{
    let cap = budget.total_chars as int;
    let asked = asked_stubs(ms, cap, plan, stubs);
    lemma_asked(ms, cap, plan, stubs, plan.len() as int);
    assert forall|k: int|
        0 <= k < plan.len() && trim_run(ms, cap, plan, asked, k).total > cap implies is_stub_of(
        asked[k],
        #[trigger] result_text(ms, plan[k].0 as int, plan[k].1 as int),
        stub_size(budget),
        width,
    ) by {
        lemma_asked(ms, cap, plan, stubs, k);
        let text = result_text(ms, plan[k].0 as int, plan[k].1 as int);
        lemma_made(make, width, text, stub_size(budget), stubs[k]);
    }
    assert forall|k: int| 0 <= k < plan.len() && (#[trigger] asked[k]) is Some implies stub_text(
        asked[k]->0,
    ) && asked[k]->0.len() <= slot_len(ms, plan[k]) by {
        lemma_asked(ms, cap, plan, stubs, k);
        let text = result_text(ms, plan[k].0 as int, plan[k].1 as int);
        assert(is_stub_of(asked[k], text, stub_size(budget), width));
        let path = choose|path: Option<Seq<char>>| #[trigger]
            path_len(path) == width && asked[k] == stub_of(text, stub_size(budget), path);
        a_stub_says_so(text, stub_size(budget), path);
    }
}

/// Over the budget still, a second run is declined everything that it asks for.
proof fn lemma_declined<F: Fn(String, usize) -> Option<String>>(
    ms: Seq<MessageV>,
    budget: ToolResultBudget,
    make: F,
    width: Option<nat>,
    plan: Seq<Slot>,
    stubs: Seq<Option<Seq<char>>>,
    again: Seq<Slot>,
    more: Seq<Option<Seq<char>>>,
    after: Vec<Message>,
    report: TrimReport,
    k: int,
)
    requires
        first_run(ms, budget, make, width, plan, stubs),
        ({
            let cap = budget.total_chars as int;
            let end = trim_run(ms, cap, plan, stubs, plan.len() as int).messages;
            &&& total_of(end) > cap
            &&& trimmed_along(end, budget, make, again, more, after, report)
        }),
        0 <= k <= again.len(),
    ensures
        ({
            let cap = budget.total_chars as int;
            let end = trim_run(ms, cap, plan, stubs, plan.len() as int).messages;
            trim_run(end, cap, again, more, k) == trim_run(end, cap, again, more, 0)
        }),
    decreases k,
{
    let cap = budget.total_chars as int;
    let n = plan.len() as int;
    let end = trim_run(ms, cap, plan, stubs, n).messages;
    let size = stub_size(budget);
    if k > 0 {
        lemma_declined(
            ms,
            budget,
            make,
            width,
            plan,
            stubs,
            again,
            more,
            after,
            report,
            k - 1,
        );
        let s = again[k - 1];
        let i = s.0 as int;
        let j = s.1 as int;
        let text = result_text(end, i, j);
        assert(made_by(make, text, size, more[k - 1]));
        lemma_made(make, width, text, size, more[k - 1]);
        assert(eligible(end, budget, i, j));
        lemma_nothing_left(ms, budget, plan, stubs, i, j);
        let m = choose|m: int|
            0 <= m < plan.len() && #[trigger] plan[m] == (i as usize, j as usize) && stubs[m]
                is None;
        trimming_tells_the_true_total(ms, budget, plan, stubs, n);
        lemma_over_all_along(ms, cap, plan, stubs, m, n);
        lemma_exchanged(ms, budget, plan, stubs, n, m);
        assert(result_text(ms, plan[m].0 as int, plan[m].1 as int) == text);
        lemma_stub_width(stubs[m], more[k - 1], text, size, width);
    }
}

/// Trimming a conversation that was just trimmed, with the same budget and the
/// stubs of this library, changes nothing and reports nothing exchanged.
pub proof fn trimming_again_changes_nothing<F: Fn(String, usize) -> Option<String>>(
    ms: Seq<MessageV>,
    budget: ToolResultBudget,
    make: F,
    width: Option<nat>,
    first: Vec<Message>,
    one: TrimReport,
    last: Vec<Message>,
    two: TrimReport,
)
    requires
        indexable(ms),
        makes_stubs(make, width),
        trims(ms, budget, make, first, one),
        trims(message_views(first@), budget, make, last, two),
    ensures
        message_views(last@) == message_views(first@),
        two.trimmed == 0,
        two.omitted_chars == 0,
{
    let cap = budget.total_chars as int;
    let end = message_views(first@);
    if budget.on() && total_of(ms) > cap && total_of(end) > cap {
        let (plan, stubs) = choose|plan: Seq<Slot>, stubs: Seq<Option<Seq<char>>>| #[trigger]
            trimmed_along(ms, budget, make, plan, stubs, first, one);
        let asked = asked_stubs(ms, cap, plan, stubs);
        lemma_first_run(ms, budget, make, width, plan, stubs, first, one);
        let (again, more) = choose|again: Seq<Slot>, more: Seq<Option<Seq<char>>>| #[trigger]
            trimmed_along(end, budget, make, again, more, last, two);
        lemma_declined(
            ms,
            budget,
            make,
            width,
            plan,
            asked,
            again,
            more,
            last,
            two,
            again.len() as int,
        );
    }
}

// ---- what a stub and an exchange are ---------------------------------------

/// A stub starts with the front of its text, says how many characters are left out,
/// and names the file that holds the whole of it; a text that fits has none.
pub proof fn a_stub_keeps_the_front(text: Seq<char>, keep: int, path: Option<Seq<char>>)
    requires
        0 <= keep,
    ensures
        text.len() <= keep ==> stub_of(text, keep, path) is None,
        match stub_of(text, keep, path) {
            Some(s) => {
                &&& text.take(keep).is_prefix_of(s)
                &&& occurs(s, decimal((text.len() - keep) as nat))
                &&& path matches Some(p) ==> occurs(s, p)
                &&& s.len() < text.len()
            },
            None => text.len() <= keep || stub_words(text, keep, path).len() >= text.len(),
        },
{
    if stub_of(text, keep, path) is Some {
        let s = stub_words(text, keep, path);
        let front = text.take(keep);
        let n = decimal((text.len() - keep) as nat);
        let a = front + "\n…（"@ + "已截断，省略了"@ + " "@;
        let end = match path {
            Some(p) => "；完整输出在 "@ + p + "）"@,
            None => "）"@,
        };
        lemma_occurs(a, n, " 字符"@ + end);
        assert(s =~= a + n + (" 字符"@ + end));
        assert(s.take(keep) =~= front);
        if path is Some {
            let b = a + n + " 字符"@ + "；完整输出在 "@;
            lemma_occurs(b, path->0, "）"@);
            assert(s =~= b + path->0 + "）"@);
        }
    }
}

/// A stub is asked to be as long as a result may be, within bounds.
pub proof fn a_stub_has_the_size_that_was_asked_for(budget: ToolResultBudget)
    ensures
        64 <= stub_size(budget) <= 2_000,
        64 <= budget.per_result_chars <= 2_000 ==> stub_size(budget) == budget.per_result_chars,
        budget.per_result_chars < 64 ==> stub_size(budget) == 64,
        budget.per_result_chars > 2_000 ==> stub_size(budget) == 2_000,
{
}

/// A budget counts only where both of its bounds are set.
pub proof fn a_budget_needs_both_bounds(budget: ToolResultBudget)
    ensures
        budget.on() <==> budget.total_chars != 0 && budget.per_result_chars != 0,
{
}

/// The characters of results are counted in every message, and those of nothing
/// else.
pub proof fn only_results_are_counted(ms: Seq<MessageV>, m: MessageV, blocks: Seq<BlockV>, b: BlockV)
    ensures
        total_of(Seq::empty()) == 0,
        total_of(ms.push(m)) == total_of(ms) + blocks_chars(m.content),
        blocks_chars(Seq::empty()) == 0,
        blocks_chars(blocks.push(b)) == blocks_chars(blocks) + match b {
            BlockV::ToolResult { tool_use_id, content } => content.len() as int,
            BlockV::ToolUse { id, name, input } => 0int,
            BlockV::Text { text } => 0int,
        },
{
    assert(ms.push(m).drop_last() =~= ms);
    assert(blocks.push(b).drop_last() =~= blocks);
}

/// A result belongs to the tool that was last called under its id.
pub proof fn a_result_belongs_to_the_last_call(
    ms: Seq<MessageV>,
    m: MessageV,
    blocks: Seq<BlockV>,
    b: BlockV,
    id: Seq<char>,
)
    ensures
        name_among(m.content, id) is Some ==> tool_named(ms.push(m), id) == name_among(m.content, id),
        name_among(m.content, id) is None ==> tool_named(ms.push(m), id) == tool_named(ms, id),
        tool_named(Seq::empty(), id) is None,
        match b {
            BlockV::ToolUse { id: used, name, input } => used == id ==> name_among(
                blocks.push(b),
                id,
            ) == Some(name),
            _ => name_among(blocks.push(b), id) == name_among(blocks, id),
        },
        b matches BlockV::ToolUse { id: used, name, input } && used != id ==> name_among(
            blocks.push(b),
            id,
        ) == name_among(blocks, id),
{
    assert(ms.push(m).drop_last() =~= ms);
    assert(blocks.push(b).drop_last() =~= blocks);
}

/// A result may be exchanged exactly where it is longer than a result may be, bears
/// no mark of a stub, and is not of the tool that keeps a budget of its own.
pub proof fn only_long_results_are_exchanged(
    ms: Seq<MessageV>,
    budget: ToolResultBudget,
    i: int,
    j: int,
)
    requires
        0 <= i < ms.len(),
        0 <= j < ms[i].content.len(),
    ensures
        eligible(ms, budget, i, j) <==> match ms[i].content[j] {
            BlockV::ToolResult { tool_use_id, content } => {
                &&& content.len() > budget.per_result_chars
                &&& !occurs(content, "完整输出在"@)
                &&& !occurs(content, "已截断，省略了"@)
                &&& tool_named(ms, tool_use_id) != Some("run_command"@)
            },
            _ => false,
        },
{
}

/// In a plan a longer result never comes after a shorter one, and of equally long
/// ones the earlier comes first.
pub proof fn a_plan_takes_the_longest_first(
    ms: Seq<MessageV>,
    budget: ToolResultBudget,
    plan: Seq<Slot>,
    a: int,
    b: int,
)
    requires
        is_plan(ms, budget, plan),
        0 <= a < b < plan.len(),
    ensures
        ({
            let x = plan[a];
            let y = plan[b];
            let m = result_text(ms, x.0 as int, x.1 as int).len();
            let n = result_text(ms, y.0 as int, y.1 as int).len();
            m > n || (m == n && (x.0 < y.0 || (x.0 == y.0 && x.1 < y.1)))
        }),
{
    assert(goes_first(ms, plan[a], plan[b]));
}

/// Nothing is exchanged once the rest fits. While it does not, a stub takes the
/// place of its text, one more is counted, and what it saves is taken from the
/// total; nothing else in the conversation changes.
pub proof fn an_exchange_saves_what_it_says(
    st: TrimV,
    cap: int,
    s: Slot,
    stub: Seq<char>,
    i: int,
    j: int,
)
    requires
        is_result(st.messages, s.0 as int, s.1 as int),
        stub.len() <= result_text(st.messages, s.0 as int, s.1 as int).len() <= st.total,
        0 <= i < st.messages.len(),
        0 <= j < st.messages[i].content.len(),
    ensures
        trim_step(st, cap, s, None) == st,
        st.total <= cap ==> trim_step(st, cap, s, Some(stub)) == st,
        st.total > cap ==> ({
            let next = trim_step(st, cap, s, Some(stub));
            let text = result_text(st.messages, s.0 as int, s.1 as int);
            &&& next.trimmed == st.trimmed + 1
            &&& next.omitted == st.omitted + (text.len() - stub.len())
            &&& next.total == st.total - (text.len() - stub.len())
            &&& next.total + next.omitted == st.total + st.omitted
            &&& next.messages.len() == st.messages.len()
            &&& next.messages[s.0 as int].content[s.1 as int] == (BlockV::ToolResult {
                tool_use_id: st.messages[s.0 as int].content[s.1 as int]->tool_use_id,
                content: stub,
            })
            &&& next.messages[i].role == st.messages[i].role
            &&& i != s.0 || j != s.1 ==> next.messages[i].content[j] == st.messages[i].content[j]
        }),
{
}

/// A run starts from the whole conversation and offers the slots one after the
/// other.
pub proof fn a_run_offers_each_slot_once(
    ms: Seq<MessageV>,
    cap: int,
    plan: Seq<Slot>,
    stubs: Seq<Option<Seq<char>>>,
    k: int,
)
    requires
        0 <= k < plan.len(),
    ensures
        trim_run(ms, cap, plan, stubs, 0).messages == ms,
        trim_run(ms, cap, plan, stubs, 0).total == total_of(ms),
        trim_run(ms, cap, plan, stubs, 0).trimmed == 0,
        trim_run(ms, cap, plan, stubs, 0).omitted == 0,
        trim_run(ms, cap, plan, stubs, k).total <= cap ==> trim_run(ms, cap, plan, stubs, k + 1)
            == trim_run(ms, cap, plan, stubs, k),
        trim_run(ms, cap, plan, stubs, k).total > cap && stubs[k] is Some ==> trim_run(
            ms,
            cap,
            plan,
            stubs,
            k + 1,
        ).trimmed == trim_run(ms, cap, plan, stubs, k).trimmed + 1,
{
}

} // verus!
