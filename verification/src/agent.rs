//! The loop of one turn: ask the model, run the tools it asks for, hand it the
//! results, and ask again, until it answers without a tool or the turn runs out
//! of iterations.
//!
//! The loop is a state that the caller drives. It says what to do next, the
//! caller does it and reports back.

use vstd::prelude::*;

use crate::budget::{
    same_place, same_shape, ToolResultBudget, total_of, trim_tool_results, trims,
    TrimReport,
};
use crate::guard::{
    a_result_is_handed_over_whole, a_warning_names_its_number, call_of, CallV, for_model,
    GuardReport, GuardVerdict, reminder_of, shown, StallGuard, verdict_of,
};
use crate::model::{
    block_views, BlockV, ContentBlock, copy_messages, CreateRequest, Message, message_views,
    MessageV, Role, text_message, ToolSchema, Usage,
};
use crate::text::{
    a_trimmed_text_has_no_blank_ends, begins, blank, decimal, is_blank_text, occurs, starts_with,
    trimmed,
};

verus! {

/// A tool call that the model asked for.
#[derive(Debug, Clone, PartialEq, Eq)]
pub struct ToolUse {
    pub id: String,
    pub name: String,
    pub input: String,
}

#[verifier::ext_equal]
pub struct UseV {
    pub id: Seq<char>,
    pub name: Seq<char>,
    pub input: Seq<char>,
}

impl View for ToolUse {
    type V = UseV;

    open spec fn view(&self) -> UseV {
        UseV { id: self.id@, name: self.name@, input: self.input@ }
    }
}

pub open spec fn use_views(uses: Seq<ToolUse>) -> Seq<UseV> {
    uses.map_values(|u: ToolUse| u@)
}

/// The tool calls among the blocks of a reply, in order.
pub open spec fn uses_of(blocks: Seq<BlockV>) -> Seq<UseV>
    decreases blocks.len(),
{
    if blocks.len() == 0 {
        Seq::empty()
    } else {
        let before = uses_of(blocks.drop_last());
        match blocks.last() {
            BlockV::ToolUse { id, name, input } => before.push(UseV { id, name, input }),
            _ => before,
        }
    }
}

pub fn tool_uses(blocks: &Vec<ContentBlock>) -> (r: Vec<ToolUse>)
    ensures
        use_views(r@) == uses_of(block_views(blocks@)),
{
    let ghost all = block_views(blocks@);
    let mut r: Vec<ToolUse> = Vec::new();
    let mut i: usize = 0;
    assert(all.take(0) =~= Seq::<BlockV>::empty());
    assert(use_views(r@) =~= Seq::<UseV>::empty());
    while i < blocks.len()
        invariant
            i <= blocks@.len(),
            all == block_views(blocks@),
            use_views(r@) == uses_of(all.take(i as int)),
        decreases blocks@.len() - i,
    {
        let ghost before = use_views(r@);
        assert(all.take(i + 1).drop_last() =~= all.take(i as int));
        match &blocks[i] {
            ContentBlock::ToolUse { id, name, input } => {
                let u = ToolUse { id: id.clone(), name: name.clone(), input: input.clone() };
                r.push(u);
                assert(use_views(r@) =~= before.push(u@));
            },
            _ => {},
        }
        i += 1;
    }
    assert(all.take(i as int) =~= all);
    r
}

/// What a tool call came to.
#[derive(Debug, Clone, PartialEq, Eq)]
pub struct ToolOutcome {
    pub name: String,
    pub output: String,
    pub duration_ms: i64,
}

impl ToolOutcome {
    pub open spec fn succeeded(self) -> bool {
        !begins(self.output@, "Error:"@)
    }

    pub fn ok(&self) -> (r: bool)
        ensures
            r == self.succeeded(),
    {
        !starts_with(self.output.as_str(), "Error:")
    }
}

/// Why the model stopped, in its own word.
#[derive(Debug, Clone, Copy, PartialEq, Eq, Structural)]
pub enum StopReason {
    EndTurn,
    ToolUse,
    Other,
}

/// What the model said: the blocks, and the text of its text blocks.
#[derive(Debug, Clone, PartialEq, Eq)]
pub struct ModelReply {
    pub content: Vec<ContentBlock>,
    pub text: String,
    pub stop_reason: StopReason,
    pub usage: Usage,
}

/// What happens in the loop, for whoever watches it.
#[derive(Debug, Clone, PartialEq, Eq)]
pub enum LoopEvent {
    /// The model answered.
    Llm { iteration: i32, stop_reason: StopReason, usage: Usage },
    /// A piece of what it is saying.
    Text { delta: String },
    /// A tool starts; what it gives comes later.
    ToolStart { name: String, args: String },
    Tool { name: String, args: String, output: String },
}

#[verifier::ext_equal]
pub enum LoopEventV {
    Llm { iteration: int, stop_reason: StopReason, usage: Usage },
    Text { delta: Seq<char> },
    ToolStart { name: Seq<char>, args: Seq<char> },
    Tool { name: Seq<char>, args: Seq<char>, output: Seq<char> },
}

impl View for LoopEvent {
    type V = LoopEventV;

    open spec fn view(&self) -> LoopEventV {
        match *self {
            LoopEvent::Llm { iteration, stop_reason, usage } => LoopEventV::Llm {
                iteration: iteration as int,
                stop_reason,
                usage,
            },
            LoopEvent::Text { delta } => LoopEventV::Text { delta: delta@ },
            LoopEvent::ToolStart { name, args } => LoopEventV::ToolStart {
                name: name@,
                args: args@,
            },
            LoopEvent::Tool { name, args, output } => LoopEventV::Tool {
                name: name@,
                args: args@,
                output: output@,
            },
        }
    }
}

pub open spec fn loop_views(events: Seq<LoopEvent>) -> Seq<LoopEventV> {
    events.map_values(|e: LoopEvent| e@)
}

/// How often the model answered.
pub open spec fn answers_told(events: Seq<LoopEventV>) -> int
    decreases events.len(),
{
    if events.len() == 0 {
        0
    } else {
        answers_told(events.drop_last()) + if events.last() is Llm {
            1int
        } else {
            0int
        }
    }
}

/// How many tools started and ended.
pub open spec fn starts_told(events: Seq<LoopEventV>) -> int
    decreases events.len(),
{
    if events.len() == 0 {
        0
    } else {
        starts_told(events.drop_last()) + if events.last() is ToolStart {
            1int
        } else {
            0int
        }
    }
}

pub open spec fn ends_told(events: Seq<LoopEventV>) -> int
    decreases events.len(),
{
    if events.len() == 0 {
        0
    } else {
        ends_told(events.drop_last()) + if events.last() is Tool {
            1int
        } else {
            0int
        }
    }
}

proof fn lemma_told_push(events: Seq<LoopEventV>, next: LoopEventV)
    ensures
        answers_told(events.push(next)) == answers_told(events) + (if next is Llm {
            1int
        } else {
            0int
        }),
        starts_told(events.push(next)) == starts_told(events) + (if next is ToolStart {
            1int
        } else {
            0int
        }),
        ends_told(events.push(next)) == ends_told(events) + (if next is Tool {
            1int
        } else {
            0int
        }),
{
    assert(events.push(next).drop_last() =~= events);
}

#[derive(Debug, Clone, PartialEq, Eq)]
pub struct LoopResult {
    pub reply: String,
    pub tool_calls: Vec<ToolOutcome>,
    pub iterations: i32,
    pub usage: Usage,
    pub messages: Vec<Message>,
    pub interrupted: bool,
    pub guard: GuardReport,
    pub estimated_input_tokens: usize,
    pub observed_input_tokens: usize,
}

/// `blocks` answers `uses` one for one, in order.
pub open spec fn answers(blocks: Seq<BlockV>, uses: Seq<UseV>) -> bool {
    &&& blocks.len() == uses.len()
    &&& forall|i: int|
        0 <= i < uses.len() ==> (#[trigger] blocks[i]) is ToolResult && blocks[i]->tool_use_id
            == uses[i].id
}

/// From `base` on, a message with tool calls is followed by their results.
pub open spec fn paired(ms: Seq<MessageV>, base: int) -> bool {
    forall|k: int| base <= k && k + 1 < ms.len() ==> #[trigger] paired_at(ms, k)
}

pub open spec fn paired_at(ms: Seq<MessageV>, k: int) -> bool {
    uses_of(ms[k].content).len() > 0 ==> ms[k + 1].role == Role::User && answers(
        ms[k + 1].content,
        uses_of(ms[k].content),
    )
}

/// One more message keeps the pairing where it answers what the last one asked.
pub proof fn lemma_paired_push(ms: Seq<MessageV>, base: int, next: MessageV)
    requires
        0 <= base,
        paired(ms, base),
        ms.len() > base && uses_of(ms.last().content).len() > 0 ==> next.role == Role::User
            && answers(next.content, uses_of(ms.last().content)),
    ensures
        paired(ms.push(next), base),
{
    let after = ms.push(next);
    assert forall|k: int| base <= k && k + 1 < after.len() implies #[trigger] paired_at(
        after,
        k,
    ) by {
        assert(after[k] == ms[k]);
        if k + 1 < ms.len() {
            assert(paired_at(ms, k));
            assert(after[k + 1] == ms[k + 1]);
        } else {
            assert(ms[k] == ms.last());
        }
    }
}

/// The reply of a turn that ran out of iterations.
pub open spec fn limit_reply() -> Seq<char> {
    "（我还没做完就到了迭代上限——试试把请求拆小一点。）"@
}

/// A turn under way. While `pending` is empty the model is to be asked;
/// otherwise `pending[results.len()]` is the tool call to run.
pub struct LoopState {
    pub messages: Vec<Message>,
    /// How many messages there were before the model was first asked.
    pub base: usize,
    pub tool_calls: Vec<ToolOutcome>,
    pub usage: Usage,
    pub iteration: i32,
    pub max_iterations: i32,
    pub guard: StallGuard,
    pub pending: Vec<ToolUse>,
    pub results: Vec<ContentBlock>,
    pub estimated: usize,
    pub observed: usize,
    /// Everything that the model said in pieces so far.
    pub streamed: String,
    /// Everything that happened so far.
    pub events: Vec<LoopEvent>,
}

/// What to do next. In the end there is what the turn came to, and everything
/// that happened in it.
pub enum Progress {
    AskModel(LoopState),
    RunTool(LoopState),
    Finished(LoopResult, Vec<LoopEvent>),
}

pub open spec fn at_least_one(n: int) -> int {
    if n < 1 {
        1
    } else {
        n
    }
}

impl LoopState {
    pub open spec fn transcript(self) -> Seq<MessageV> {
        message_views(self.messages@)
    }

    pub open spec fn wf(self) -> bool {
        &&& 1 <= self.iteration <= at_least_one(self.max_iterations as int)
        &&& self.guard.wf()
        &&& 0 <= self.guard.hit_count() <= self.tool_calls@.len()
        &&& 0 < self.base <= self.messages@.len()
        &&& paired(self.transcript(), self.base as int)
        &&& self.pending@.len() == 0 ==> self.results@.len() == 0 && (self.messages@.len()
            > self.base ==> uses_of(self.transcript().last().content).len() == 0)
        &&& self.pending@.len() > 0 ==> {
            &&& self.results@.len() < self.pending@.len()
            &&& self.base < self.messages@.len()
            &&& uses_of(self.transcript().last().content) == use_views(self.pending@)
            &&& forall|i: int|
                0 <= i < self.results@.len() ==> (#[trigger] self.results@[i]) is ToolResult
                    && self.results@[i]->tool_use_id@ == self.pending@[i].id@
        }
        &&& answers_told(self.told()) == self.iteration - (if self.pending@.len() == 0 {
            1int
        } else {
            0int
        })
        &&& ends_told(self.told()) == self.tool_calls@.len()
        &&& starts_told(self.told()) == self.tool_calls@.len() + (if self.pending@.len() == 0 {
            0int
        } else {
            1int
        })
    }

    pub open spec fn told(self) -> Seq<LoopEventV> {
        loop_views(self.events@)
    }

    /// The call to run now, as it is told.
    pub open spec fn start_of(u: UseV) -> LoopEventV {
        LoopEventV::ToolStart { name: u.name, args: u.input }
    }

    /// Everything but the parts that the coming step changes.
    pub open spec fn same_course(self, other: LoopState) -> bool {
        &&& self.base == other.base
        &&& self.max_iterations == other.max_iterations
        &&& self.usage == other.usage
        &&& self.estimated == other.estimated
        &&& self.observed == other.observed
        &&& self.streamed == other.streamed
    }

    /// Opens a turn: the conversation so far, and what the user says now.
    pub fn start(history: Vec<Message>, user_message: String, max_iterations: i32) -> (r: LoopState)
        requires
            history@.len() < usize::MAX,
        ensures
            r.wf(),
            r.transcript() == message_views(history@).push(
                text_message(Role::User, user_message@),
            ),
            r.iteration == 1,
            r.max_iterations == max_iterations,
            r.tool_calls@.len() == 0,
            r.usage == (Usage { input_tokens: 0, output_tokens: 0 }),
            r.pending@.len() == 0,
            r.base == r.messages@.len(),
            r.guard.calls().len() == 0,
            r.guard.hit_count() == 0,
            r.guard.note() is None,
            r.estimated == 0,
            r.observed == 0,
            r.streamed@.len() == 0,
            r.events@.len() == 0,
    {
        let mut messages = history;
        let ghost before = message_views(messages@);
        messages.push(Message::user_text(user_message));
        assert(message_views(messages@) =~= before.push(text_message(Role::User, user_message@)));
        let base: usize = messages.len();
        LoopState {
            messages,
            base,
            tool_calls: Vec::new(),
            usage: Usage::default(),
            iteration: 1,
            max_iterations,
            guard: StallGuard::new(),
            pending: Vec::new(),
            results: Vec::new(),
            estimated: 0,
            observed: 0,
            streamed: String::new(),
            events: Vec::new(),
        }
    }

    /// Exchanges results that are too long before the model is asked; see
    /// [`trim_tool_results`].
    pub fn trim<F: Fn(String, usize) -> Option<String>>(
        &mut self,
        budget: &ToolResultBudget,
        make: F,
    ) -> (r: TrimReport)
        requires
            old(self).wf(),
            old(self).pending@.len() == 0,
            total_of(old(self).transcript()) <= usize::MAX,
            forall|t: String, n: usize| make.requires((t, n)),
        ensures
            final(self).wf(),
            final(self).same_course(*old(self)),
            final(self).iteration == old(self).iteration,
            final(self).tool_calls == old(self).tool_calls,
            final(self).guard == old(self).guard,
            final(self).pending == old(self).pending,
            final(self).results == old(self).results,
            final(self).events == old(self).events,
            same_shape(old(self).transcript(), final(self).transcript()),
            trims(old(self).transcript(), *budget, make, final(self).messages, r),
    {
        let mut messages: Vec<Message> = Vec::new();
        std::mem::swap(&mut messages, &mut self.messages);
        let report = trim_tool_results(&mut messages, budget, make);
        self.messages = messages;
        proof {
            let was = old(self).transcript();
            let now = self.transcript();
            lemma_shape_pairs(was, now, self.base as int);
            if now.len() > self.base {
                lemma_shape_uses(was.last().content, now.last().content);
            }
        }
        report
    }

    /// What the model is asked. `estimated` is what the request is reckoned to
    /// hold.
    pub fn ask(
        &mut self,
        model: &str,
        system: String,
        tools: Vec<ToolSchema>,
        max_tokens: i32,
        estimated: usize,
    ) -> (r: CreateRequest)
        requires
            old(self).wf(),
            old(self).pending@.len() == 0,
        ensures
            *final(self) == (LoopState { estimated, ..*old(self) }),
            final(self).wf(),
            r.model@ == model@,
            r.system == Some(system),
            message_views(r.messages@) == old(self).transcript(),
            r.tools == tools,
            r.max_tokens == max_tokens,
    {
        self.estimated = estimated;
        CreateRequest {
            model: model.to_owned(),
            system: Some(system),
            messages: copy_messages(&self.messages),
            tools,
            max_tokens,
        }
    }

    /// The model said a piece of its answer.
    pub fn heard(&mut self, delta: &str)
        requires
            old(self).wf(),
        ensures
            final(self).wf(),
            *final(self) == (LoopState {
                streamed: final(self).streamed,
                events: final(self).events,
                ..*old(self)
            }),
            final(self).streamed@ == old(self).streamed@ + delta@,
            final(self).told() == old(self).told().push(LoopEventV::Text { delta: delta@ }),
    {
        let ghost before = self.told();
        self.streamed.append(delta);
        let event = LoopEvent::Text { delta: delta.to_owned() };
        self.events.push(event);
        proof {
            assert(self.told() =~= before.push(event@));
            lemma_told_push(before, event@);
        }
    }

    /// The tool call to run now, if the model is not to be asked.
    pub fn next_use(&self) -> (r: Option<&ToolUse>)
        requires
            self.wf(),
        ensures
            match r {
                Some(u) => self.pending@.len() > 0 && *u == self.pending@[self.results@.len() as int],
                None => self.pending@.len() == 0,
            },
    {
        if self.pending.len() == 0 {
            None
        } else {
            Some(&self.pending[self.results.len()])
        }
    }

    /// What an answer of the model leads to.
    pub open spec fn replied(self, reply: ModelReply, r: Progress) -> bool {
        let said = MessageV { role: Role::Assistant, content: block_views(reply.content@) };
        let uses = uses_of(said.content);
        let usage = Usage {
            input_tokens: (self.usage.input_tokens + reply.usage.input_tokens) as i64,
            output_tokens: (self.usage.output_tokens + reply.usage.output_tokens) as i64,
        };
        let observed = if reply.usage.input_tokens < 0 {
            0
        } else {
            reply.usage.input_tokens as int
        };
        let told = self.told().push(
            LoopEventV::Llm {
                iteration: self.iteration as int,
                stop_reason: reply.stop_reason,
                usage: reply.usage,
            },
        );
        match r {
            Progress::Finished(end, events) => {
                &&& uses.len() == 0
                &&& loop_views(events@) == told
                &&& answers_told(told) == end.iterations <= at_least_one(
                    self.max_iterations as int,
                )
                &&& end.reply@ == reply.text@
                &&& end.tool_calls == self.tool_calls
                &&& end.iterations == self.iteration
                &&& end.usage == usage
                &&& message_views(end.messages@) == self.transcript().push(said)
                &&& !end.interrupted
                &&& end.guard.tells(self.guard)
                &&& end.estimated_input_tokens == self.estimated
                &&& end.observed_input_tokens == observed
                &&& paired(message_views(end.messages@), self.base as int)
            },
            Progress::RunTool(next) => {
                &&& uses.len() > 0
                &&& next.wf()
                &&& next.transcript() == self.transcript().push(said)
                &&& use_views(next.pending@) == uses
                &&& next.results@.len() == 0
                &&& next.tool_calls == self.tool_calls
                &&& next.guard == self.guard
                &&& next.iteration == self.iteration
                &&& next.max_iterations == self.max_iterations
                &&& next.base == self.base
                &&& next.usage == usage
                &&& next.estimated == self.estimated
                &&& next.observed == observed
                &&& next.streamed == self.streamed
                &&& next.told() == told.push(LoopState::start_of(uses[0]))
            },
            Progress::AskModel(_) => false,
        }
    }

    /// The model answered.
    pub fn on_reply(self, reply: ModelReply) -> (r: Progress)
        requires
            self.wf(),
            self.pending@.len() == 0,
            i64::MIN <= self.usage.input_tokens + reply.usage.input_tokens <= i64::MAX,
            i64::MIN <= self.usage.output_tokens + reply.usage.output_tokens <= i64::MAX,
            reply.usage.input_tokens <= usize::MAX,
        ensures
            self.replied(reply, r),
    {
        let LoopState {
            messages,
            base,
            tool_calls,
            usage,
            iteration,
            max_iterations,
            guard,
            pending: _,
            results,
            estimated,
            observed: _,
            streamed,
            events,
        } = self;
        let mut messages = messages;
        let mut events = events;
        let ghost before = message_views(messages@);
        let ghost told = loop_views(events@);
        let answer = LoopEvent::Llm {
            iteration,
            stop_reason: reply.stop_reason,
            usage: reply.usage,
        };
        events.push(answer);
        proof {
            assert(loop_views(events@) =~= told.push(answer@));
            lemma_told_push(told, answer@);
        }
        let usage = Usage {
            input_tokens: usage.input_tokens + reply.usage.input_tokens,
            output_tokens: usage.output_tokens + reply.usage.output_tokens,
        };
        let observed: usize = if reply.usage.input_tokens < 0 {
            0
        } else {
            reply.usage.input_tokens as usize
        };
        let uses = tool_uses(&reply.content);
        let said = Message { role: Role::Assistant, content: reply.content };
        messages.push(said);
        assert(message_views(messages@) =~= before.push(said@));
        proof {
            lemma_paired_push(before, base as int, said@);
        }
        if uses.len() == 0 {
            assert(uses_of(said@.content).len() == use_views(uses@).len());
            Progress::Finished(
                LoopResult {
                    reply: reply.text,
                    tool_calls,
                    iterations: iteration,
                    usage,
                    messages,
                    interrupted: false,
                    guard: GuardReport::close(&guard),
                    estimated_input_tokens: estimated,
                    observed_input_tokens: observed,
                },
                events,
            )
        } else {
            assert(message_views(messages@).last() == said@);
            let ghost so_far = loop_views(events@);
            let start = LoopEvent::ToolStart {
                name: uses[0].name.clone(),
                args: uses[0].input.clone(),
            };
            events.push(start);
            proof {
                assert(loop_views(events@) =~= so_far.push(start@));
                lemma_told_push(so_far, start@);
                assert(use_views(uses@)[0] == uses@[0]@);
            }
            Progress::RunTool(
                LoopState {
                    messages,
                    base,
                    tool_calls,
                    usage,
                    iteration,
                    max_iterations,
                    guard,
                    pending: uses,
                    results,
                    estimated,
                    observed,
                    streamed,
                    events,
                },
            )
        }
    }

    /// What the output of the tool call at hand leads to.
    pub open spec fn ran(self, output: String, duration_ms: i64, r: Progress) -> bool {
        let at = self.results@.len() as int;
        let u = self.pending@[at];
        let calls = self.guard.calls().push(call_of(u.name@, u.input@, output@));
        let verdict = verdict_of(calls);
        let block = BlockV::ToolResult {
            tool_use_id: u.id@,
            content: shown(output@, u.name@, u.input@, verdict),
        };
        let results = block_views(self.results@).push(block);
        let told = self.told().push(
            LoopEventV::Tool { name: u.name@, args: u.input@, output: output@ },
        );
        match r {
            Progress::RunTool(next) => {
                &&& at + 1 < self.pending@.len()
                &&& next.wf()
                &&& next.same_course(self)
                &&& next.iteration == self.iteration
                &&& next.transcript() == self.transcript()
                &&& next.pending == self.pending
                &&& block_views(next.results@) == results
                &&& recorded(next.tool_calls@, self.tool_calls@, u.name@, output@, duration_ms)
                &&& watched(next.guard, self.guard, calls)
                &&& next.told() == told.push(LoopState::start_of(self.pending@[at + 1]@))
            },
            Progress::AskModel(next) => {
                &&& at + 1 == self.pending@.len()
                &&& self.iteration < self.max_iterations
                &&& next.wf()
                &&& next.same_course(self)
                &&& next.iteration == self.iteration + 1
                &&& next.transcript() == self.transcript().push(
                    MessageV { role: Role::User, content: results },
                )
                &&& next.pending@.len() == 0
                &&& recorded(next.tool_calls@, self.tool_calls@, u.name@, output@, duration_ms)
                &&& watched(next.guard, self.guard, calls)
                &&& next.told() == told
            },
            Progress::Finished(end, events) => {
                &&& at + 1 == self.pending@.len()
                &&& self.iteration >= self.max_iterations
                &&& end.reply@ == limit_reply()
                &&& end.iterations == self.max_iterations
                &&& !end.interrupted
                &&& end.usage == self.usage
                &&& end.estimated_input_tokens == self.estimated
                &&& end.observed_input_tokens == self.observed
                &&& message_views(end.messages@) == self.transcript().push(
                    MessageV { role: Role::User, content: results },
                )
                &&& paired(message_views(end.messages@), self.base as int)
                &&& recorded(end.tool_calls@, self.tool_calls@, u.name@, output@, duration_ms)
                &&& end.guard.hits == hits_after(self.guard, calls)
                &&& match end.guard.note {
                    Some(n) => note_after(self.guard, calls) == Some(n@),
                    None => note_after(self.guard, calls) is None,
                }
                &&& loop_views(events@) == told
                &&& answers_told(told) == at_least_one(self.max_iterations as int)
            },
        }
    }

    /// The tool call at hand gave this output.
    pub fn on_tool(self, output: String, duration_ms: i64) -> (r: Progress)
        requires
            self.wf(),
            self.pending@.len() > 0,
            self.tool_calls@.len() < i32::MAX,
        ensures
            self.ran(output, duration_ms, r),
    {
        let LoopState {
            messages,
            base,
            tool_calls,
            usage,
            iteration,
            max_iterations,
            guard,
            pending,
            results,
            estimated,
            observed,
            streamed,
            events,
        } = self;
        let mut messages = messages;
        let mut events = events;
        let mut tool_calls = tool_calls;
        let mut guard = guard;
        let mut results = results;
        let at: usize = results.len();
        let ghost before = message_views(messages@);
        let ghost old_results = block_views(results@);
        let id = pending[at].id.clone();
        let name = pending[at].name.clone();
        let verdict = guard.observe(name.as_str(), pending[at].input.as_str(), output.as_str());
        let content = for_model(
            output.as_str(),
            name.as_str(),
            pending[at].input.as_str(),
            &verdict,
        );
        let block = ContentBlock::ToolResult { tool_use_id: id, content };
        results.push(block);
        assert(block_views(results@) =~= old_results.push(block@));
        let ghost told = loop_views(events@);
        let end = LoopEvent::Tool {
            name: name.clone(),
            args: pending[at].input.clone(),
            output: output.clone(),
        };
        events.push(end);
        proof {
            assert(loop_views(events@) =~= told.push(end@));
            lemma_told_push(told, end@);
        }
        let ghost old_calls = tool_calls@;
        tool_calls.push(ToolOutcome { name, output, duration_ms });
        assert(tool_calls@.drop_last() =~= old_calls);
        assert forall|i: int| 0 <= i < results@.len() implies (#[trigger] results@[i]) is ToolResult
            && results@[i]->tool_use_id@ == pending@[i].id@ by {
            if i < at {
                assert(results@[i] == self.results@[i]);
            }
        }
        let n: usize = pending.len();
        if at < n - 1 {
            let ghost so_far = loop_views(events@);
            let start = LoopEvent::ToolStart {
                name: pending[at + 1].name.clone(),
                args: pending[at + 1].input.clone(),
            };
            events.push(start);
            proof {
                assert(loop_views(events@) =~= so_far.push(start@));
                lemma_told_push(so_far, start@);
            }
            return Progress::RunTool(
                LoopState {
                    messages,
                    base,
                    tool_calls,
                    usage,
                    iteration,
                    max_iterations,
                    guard,
                    pending,
                    results,
                    estimated,
                    observed,
                    streamed,
                    events,
                },
            );
        }
        let answer = Message { role: Role::User, content: results };
        messages.push(answer);
        assert(message_views(messages@) =~= before.push(answer@));
        assert(answers(answer@.content, use_views(pending@))) by {
            assert forall|i: int| 0 <= i < pending@.len() implies (
            #[trigger] answer@.content[i]) is ToolResult && answer@.content[i]->tool_use_id
                == use_views(pending@)[i].id by {
                assert(answer@.content[i] == answer.content@[i]@);
            }
        }
        proof {
            lemma_paired_push(before, base as int, answer@);
        }
        if iteration < max_iterations {
            assert(uses_of(answer@.content).len() == 0) by {
                lemma_results_use_nothing(answer@.content);
            }
            assert(message_views(messages@).last() == answer@);
            Progress::AskModel(
                LoopState {
                    messages,
                    base,
                    tool_calls,
                    usage,
                    iteration: iteration + 1,
                    max_iterations,
                    guard,
                    pending: Vec::new(),
                    results: Vec::new(),
                    estimated,
                    observed,
                    streamed,
                    events,
                },
            )
        } else {
            Progress::Finished(
                LoopResult {
                    reply: "（我还没做完就到了迭代上限——试试把请求拆小一点。）".to_owned(),
                    tool_calls,
                    iterations: max_iterations,
                    usage,
                    messages,
                    interrupted: false,
                    guard: GuardReport::close(&guard),
                    estimated_input_tokens: estimated,
                    observed_input_tokens: observed,
                },
                events,
            )
        }
    }

    /// What a turn comes to that was cancelled.
    pub open spec fn stopped(self, r: LoopResult) -> bool {
        &&& r.interrupted
        &&& r.reply@ == if trimmed(self.streamed@).len() == 0 {
            "（这轮被打断了。）"@
        } else {
            self.streamed@
        }
        &&& r.iterations == self.iteration - 1
        &&& r.tool_calls == self.tool_calls
        &&& r.usage == self.usage
        &&& r.messages == self.messages
        &&& r.guard.tells(self.guard)
        &&& r.estimated_input_tokens == self.estimated
        &&& r.observed_input_tokens == self.observed
    }

    /// The turn was cancelled. What the model had said so far is kept.
    pub fn interrupt(self) -> (r: LoopResult)
        requires
            self.wf(),
        ensures
            self.stopped(r),
    {
        let reply = if is_blank_text(self.streamed.as_str()) {
            "（这轮被打断了。）".to_owned()
        } else {
            self.streamed
        };
        LoopResult {
            reply,
            tool_calls: self.tool_calls,
            iterations: self.iteration - 1,
            usage: self.usage,
            messages: self.messages,
            interrupted: true,
            guard: GuardReport::close(&self.guard),
            estimated_input_tokens: self.estimated,
            observed_input_tokens: self.observed,
        }
    }
}

/// How often the guard has spoken up after these calls.
pub open spec fn hits_after(before: StallGuard, calls: Seq<CallV>) -> int {
    before.hit_count() + if verdict_of(calls) is Fine {
        0int
    } else {
        1int
    }
}

pub open spec fn note_after(before: StallGuard, calls: Seq<CallV>) -> Option<Seq<char>> {
    if verdict_of(calls) is Fine {
        before.note()
    } else {
        reminder_of(verdict_of(calls))
    }
}

/// `now` is `before` after one more call, with `calls` as all the calls so far.
pub open spec fn watched(now: StallGuard, before: StallGuard, calls: Seq<CallV>) -> bool {
    &&& now.calls() == calls
    &&& now.hit_count() == hits_after(before, calls)
    &&& now.note() == note_after(before, calls)
}

/// `now` is `before` with one more outcome.
pub open spec fn recorded(
    now: Seq<ToolOutcome>,
    before: Seq<ToolOutcome>,
    name: Seq<char>,
    output: Seq<char>,
    duration_ms: i64,
) -> bool {
    &&& now.len() == before.len() + 1
    &&& now.drop_last() == before
    &&& now.last().name@ == name
    &&& now.last().output@ == output
    &&& now.last().duration_ms == duration_ms
}

proof fn lemma_shape_uses(a: Seq<BlockV>, b: Seq<BlockV>)
    requires
        a.len() == b.len(),
        forall|j: int| 0 <= j < a.len() ==> same_place(#[trigger] a[j], b[j]),
    ensures
        uses_of(a) == uses_of(b),
    decreases a.len(),
{
    if a.len() > 0 {
        assert(same_place(a[a.len() - 1], b[a.len() - 1]));
        assert forall|j: int| 0 <= j < a.drop_last().len() implies same_place(
            #[trigger] a.drop_last()[j],
            b.drop_last()[j],
        ) by {
            assert(same_place(a[j], b[j]));
        }
        lemma_shape_uses(a.drop_last(), b.drop_last());
    }
}

/// What only changes the texts of results keeps the pairing.
proof fn lemma_shape_pairs(a: Seq<MessageV>, b: Seq<MessageV>, base: int)
    requires
        0 <= base,
        same_shape(a, b),
        paired(a, base),
    ensures
        paired(b, base),
{
    assert forall|k: int| base <= k && k + 1 < b.len() implies #[trigger] paired_at(b, k) by {
        assert(paired_at(a, k));
        lemma_shape_uses(a[k].content, b[k].content);
        let uses = uses_of(a[k].content);
        if uses.len() > 0 {
            assert(a[k + 1].role == b[k + 1].role);
            assert forall|i: int| 0 <= i < uses.len() implies (
            #[trigger] b[k + 1].content[i]) is ToolResult && b[k + 1].content[i]->tool_use_id
                == uses[i].id by {
                assert(a[k + 1].content[i] is ToolResult);
                assert(same_place(a[k + 1].content[i], b[k + 1].content[i]));
            }
        }
    }
}

pub proof fn lemma_results_use_nothing(blocks: Seq<BlockV>)
    requires
        forall|i: int| 0 <= i < blocks.len() ==> (#[trigger] blocks[i]) is ToolResult,
    ensures
        uses_of(blocks).len() == 0,
    decreases blocks.len(),
{
    if blocks.len() > 0 {
        assert(blocks.last() is ToolResult);
        assert forall|i: int| 0 <= i < blocks.drop_last().len() implies (
        #[trigger] blocks.drop_last()[i]) is ToolResult by {
            assert(blocks.drop_last()[i] == blocks[i]);
        }
        lemma_results_use_nothing(blocks.drop_last());
    }
}

// ---- what the loop promises ------------------------------------------------

/// Every tool call of a reply is found, in its order and with all that it asks for;
/// no other block is taken for one.
pub proof fn every_tool_call_is_found(a: Seq<BlockV>, block: BlockV, b: Seq<BlockV>)
    ensures
        uses_of(a + b) == uses_of(a) + uses_of(b),
        match block {
            BlockV::ToolUse { id, name, input } => uses_of(seq![block]) == seq![
                UseV { id, name, input },
            ],
            _ => uses_of(seq![block]).len() == 0,
        },
    decreases b.len(),
{
    assert(seq![block].drop_last() =~= Seq::<BlockV>::empty());
    reveal_with_fuel(uses_of, 2);
    match block {
        BlockV::ToolUse { id, name, input } => assert(uses_of(seq![block]) =~= seq![
            UseV { id, name, input },
        ]),
        _ => {},
    }
    if b.len() == 0 {
        assert(a + b =~= a);
        assert(uses_of(a) + uses_of(b) =~= uses_of(a));
    } else {
        every_tool_call_is_found(a, block, b.drop_last());
        assert((a + b).drop_last() =~= a + b.drop_last());
        assert(uses_of(a + b) =~= uses_of(a) + uses_of(b));
    }
}

/// A tool failed exactly where what it gave starts with `Error:`.
pub proof fn a_failure_says_so(outcome: ToolOutcome)
    ensures
        outcome.succeeded() <==> !"Error:"@.is_prefix_of(outcome.output@),
{
    let p = "Error:"@;
    let s = outcome.output@;
    if begins(s, p) {
        assert(s.take(p.len() as int) =~= p);
    }
    if p.is_prefix_of(s) {
        assert(s.subrange(0, p.len() as int) =~= p);
    }
}

/// However a turn goes, the model is not asked more often than it may be, and at
/// least once where it may be asked at all; each tool that is done was started, and
/// at most one is under way.
pub proof fn a_turn_keeps_to_its_iterations(state: LoopState)
    requires
        state.wf(),
    ensures
        answers_told(state.told()) <= state.max_iterations || answers_told(state.told()) <= 1,
        ends_told(state.told()) == state.tool_calls@.len(),
        ends_told(state.told()) <= starts_told(state.told()) <= ends_told(state.told()) + 1,
{
}

/// In the conversation every tool call is answered by a result of its own, right
/// behind it and in the order of the calls.
pub proof fn every_call_has_its_result(state: LoopState, k: int, i: int)
    requires
        state.wf(),
        state.base <= k,
        k + 1 < state.messages@.len(),
        0 <= i < uses_of(state.transcript()[k].content).len(),
    ensures
        ({
            let next = state.transcript()[k + 1];
            &&& next.role == Role::User
            &&& next.content.len() == uses_of(state.transcript()[k].content).len()
            &&& next.content[i] is ToolResult
            &&& next.content[i]->tool_use_id == uses_of(state.transcript()[k].content)[i].id
        }),
{
    assert(paired_at(state.transcript(), k));
}

/// The guard speaks up once for each call that does not bring the turn on, and what
/// it said last is what is noted.
pub proof fn the_guard_is_counted(before: StallGuard, calls: Seq<CallV>)
    ensures
        verdict_of(calls) is Fine ==> hits_after(before, calls) == before.hit_count() && note_after(
            before,
            calls,
        ) == before.note(),
        !(verdict_of(calls) is Fine) ==> hits_after(before, calls) == before.hit_count() + 1
            && note_after(before, calls) is Some,
        verdict_of(calls) matches GuardVerdict::Repeated { times } ==> occurs(
            note_after(before, calls)->0,
            decimal(times as nat),
        ),
{
    match verdict_of(calls) {
        GuardVerdict::Repeated { times } => {
            a_warning_names_its_number(Seq::empty(), Seq::empty(), Seq::empty(), times);
            a_result_is_handed_over_whole(
                Seq::empty(),
                Seq::empty(),
                Seq::empty(),
                GuardVerdict::Repeated { times },
            );
            assert(Seq::<char>::empty() + note_after(before, calls)->0 =~= note_after(
                before,
                calls,
            )->0);
        },
        _ => {},
    }
}

/// What a tool gave is recorded behind what was recorded before, in full.
pub proof fn an_outcome_is_recorded(
    now: Seq<ToolOutcome>,
    before: Seq<ToolOutcome>,
    name: Seq<char>,
    output: Seq<char>,
    duration_ms: i64,
)
    requires
        recorded(now, before, name, output, duration_ms),
    ensures
        before.is_prefix_of(now),
        now.len() == before.len() + 1,
        now[before.len() as int].name@ == name,
        now[before.len() as int].output@ == output,
        now[before.len() as int].duration_ms == duration_ms,
{
    assert(now.take(before.len() as int) =~= now.drop_last());
}

/// A turn ends when the model asks for no tool, with exactly what it said; where it
/// asks for one, each of its calls is to be run. What the model said stands at the end
/// of the conversation, and what it cost is added up.
pub proof fn a_turn_ends_with_the_models_words(
    state: LoopState,
    reply: ModelReply,
    end: LoopResult,
    events: Vec<LoopEvent>,
    next: LoopState,
)
    requires
        state.wf(),
        i64::MIN <= state.usage.input_tokens + reply.usage.input_tokens <= i64::MAX,
        i64::MIN <= state.usage.output_tokens + reply.usage.output_tokens <= i64::MAX,
    ensures
        !state.replied(reply, Progress::AskModel(next)),
        state.replied(reply, Progress::Finished(end, events)) ==> {
            &&& uses_of(block_views(reply.content@)).len() == 0
            &&& end.reply@ == reply.text@
            &&& !end.interrupted
            &&& end.iterations == state.iteration
            &&& end.tool_calls == state.tool_calls
            &&& end.usage.input_tokens == state.usage.input_tokens + reply.usage.input_tokens
            &&& end.usage.output_tokens == state.usage.output_tokens + reply.usage.output_tokens
            &&& end.messages@.len() == state.messages@.len() + 1
            &&& end.messages@.last().role == Role::Assistant
            &&& block_views(end.messages@.last().content@) == block_views(reply.content@)
            &&& end.guard.hits == state.guard.hit_count()
            &&& events@.len() == state.events@.len() + 1
            &&& events@.last() is Llm
        },
        state.replied(reply, Progress::RunTool(next)) ==> {
            &&& uses_of(block_views(reply.content@)).len() > 0
            &&& use_views(next.pending@) == uses_of(block_views(reply.content@))
            &&& next.results@.len() == 0
            &&& next.usage.input_tokens == state.usage.input_tokens + reply.usage.input_tokens
            &&& next.usage.output_tokens == state.usage.output_tokens + reply.usage.output_tokens
            &&& next.messages@.len() == state.messages@.len() + 1
            &&& next.messages@.last().role == Role::Assistant
            &&& block_views(next.messages@.last().content@) == block_views(reply.content@)
            &&& next.iteration == state.iteration
            &&& next.max_iterations == state.max_iterations
            &&& next.tool_calls == state.tool_calls
            &&& next.guard == state.guard
            &&& next.streamed == state.streamed
            &&& next.events@.len() == state.events@.len() + 2
            &&& next.events@.last()@ == (LoopEventV::ToolStart {
                name: next.pending@[0].name@,
                args: next.pending@[0].input@,
            })
        },
{
    if state.replied(reply, Progress::Finished(end, events)) {
        let all = message_views(end.messages@);
        assert(all.len() == end.messages@.len());
        assert(all[all.len() - 1] == end.messages@.last()@);
        let told = loop_views(events@);
        assert(told.len() == events@.len());
        assert(told[told.len() - 1] == events@.last()@);
        assert(state.told().len() == state.events@.len());
    }
    if state.replied(reply, Progress::RunTool(next)) {
        let all = next.transcript();
        assert(all.len() == next.messages@.len());
        assert(all[all.len() - 1] == next.messages@.last()@);
        let told = next.told();
        assert(told.len() == next.events@.len());
        assert(told[told.len() - 1] == next.events@.last()@);
        assert(state.told().len() == state.events@.len());
        let uses = use_views(next.pending@);
        assert(uses.len() == next.pending@.len());
        assert(uses[0] == next.pending@[0]@);
    }
}

/// What a tool gave is recorded in full and handed to the model under the id of its
/// call. While calls of the reply are left they are run, in order; then the model is
/// asked with all the results, unless no iteration is left.
pub proof fn a_result_goes_to_the_model(
    state: LoopState,
    output: String,
    ms: i64,
    next: LoopState,
    end: LoopResult,
    events: Vec<LoopEvent>,
)
    requires
        state.wf(),
        state.pending@.len() > 0,
    ensures
        ({
            let at = state.results@.len() as int;
            let u = state.pending@[at];
            let verdict = verdict_of(
                state.guard.calls().push(call_of(u.name@, u.input@, output@)),
            );
            let block = BlockV::ToolResult {
                tool_use_id: u.id@,
                content: shown(output@, u.name@, u.input@, verdict),
            };
            let all = block_views(state.results@).push(block);
            &&& state.ran(output, ms, Progress::RunTool(next)) ==> {
                &&& at + 1 < state.pending@.len()
                &&& next.results@.len() == at + 1
                &&& next.results@[at]@ == block
                &&& next.pending == state.pending
                &&& next.transcript() == state.transcript()
                &&& next.iteration == state.iteration
                &&& next.usage == state.usage
                &&& next.tool_calls@.len() == state.tool_calls@.len() + 1
                &&& next.tool_calls@.last().name@ == u.name@
                &&& next.tool_calls@.last().output@ == output@
                &&& next.tool_calls@.last().duration_ms == ms
            }
            &&& state.ran(output, ms, Progress::AskModel(next)) ==> {
                &&& at + 1 == state.pending@.len()
                &&& state.iteration < state.max_iterations
                &&& next.iteration == state.iteration + 1
                &&& next.pending@.len() == 0
                &&& next.messages@.len() == state.messages@.len() + 1
                &&& next.messages@.last().role == Role::User
                &&& block_views(next.messages@.last().content@) == all
                &&& next.usage == state.usage
                &&& next.tool_calls@.last().name@ == u.name@
                &&& next.tool_calls@.last().output@ == output@
                &&& next.tool_calls@.last().duration_ms == ms
            }
            &&& state.ran(output, ms, Progress::Finished(end, events)) ==> {
                &&& at + 1 == state.pending@.len()
                &&& state.iteration >= state.max_iterations
                &&& end.reply@ == "（我还没做完就到了迭代上限——试试把请求拆小一点。）"@
                &&& end.iterations == state.max_iterations
                &&& !end.interrupted
                &&& end.usage == state.usage
                &&& end.messages@.len() == state.messages@.len() + 1
                &&& block_views(end.messages@.last().content@) == all
                &&& end.tool_calls@.len() == state.tool_calls@.len() + 1
                &&& end.tool_calls@.last().output@ == output@
            }
        }),
{
    let at = state.results@.len() as int;
    if state.ran(output, ms, Progress::RunTool(next)) {
        let got = block_views(next.results@);
        assert(got.len() == next.results@.len());
        assert(got[at] == next.results@[at]@);
    }
    if state.ran(output, ms, Progress::AskModel(next)) {
        let all = next.transcript();
        assert(all.len() == next.messages@.len());
        assert(all[all.len() - 1] == next.messages@.last()@);
    }
    if state.ran(output, ms, Progress::Finished(end, events)) {
        let all = message_views(end.messages@);
        assert(all.len() == end.messages@.len());
        assert(all[all.len() - 1] == end.messages@.last()@);
    }
}

/// A turn that is stopped keeps what the model had said so far, what its tools did
/// and what it cost; it says so where nothing had been said.
pub proof fn a_stopped_turn_keeps_what_was_said(state: LoopState, r: LoopResult)
    requires
        state.stopped(r),
    ensures
        r.interrupted,
        (exists|k: int| 0 <= k < state.streamed@.len() && !blank(#[trigger] state.streamed@[k]))
            ==> r.reply@ == state.streamed@,
        (forall|k: int| 0 <= k < state.streamed@.len() ==> blank(#[trigger] state.streamed@[k]))
            ==> r.reply@ == "（这轮被打断了。）"@,
        r.tool_calls == state.tool_calls,
        r.usage == state.usage,
        r.messages == state.messages,
        r.iterations == state.iteration - 1,
        r.guard.hits == state.guard.hit_count(),
{
    a_trimmed_text_has_no_blank_ends(state.streamed@);
}

/// The guard is shown every call with what it gave, behind those before it. It counts
/// a hit, and its note is the warning, exactly where the call is not fine; the last
/// report says how many hits there were.
pub proof fn the_guard_sees_every_call(
    state: LoopState,
    output: String,
    ms: i64,
    next: LoopState,
    end: LoopResult,
    events: Vec<LoopEvent>,
)
    requires
        state.wf(),
        state.pending@.len() > 0,
    ensures
        ({
            let u = state.pending@[state.results@.len() as int];
            let calls = state.guard.calls().push(call_of(u.name@, u.input@, output@));
            let verdict = verdict_of(calls);
            let hits = if verdict is Fine {
                state.guard.hit_count()
            } else {
                state.guard.hit_count() + 1
            };
            &&& state.ran(output, ms, Progress::RunTool(next)) || state.ran(
                output,
                ms,
                Progress::AskModel(next),
            ) ==> {
                &&& next.guard.calls() == calls
                &&& next.guard.hit_count() == hits
                &&& verdict is Fine ==> next.guard.note() == state.guard.note()
                &&& !(verdict is Fine) ==> next.guard.note() == reminder_of(verdict)
            }
            &&& state.ran(output, ms, Progress::Finished(end, events)) ==> {
                &&& end.guard.hits == hits
                &&& !(verdict is Fine) ==> end.guard.note is Some && reminder_of(verdict) == Some(
                    end.guard.note->0@,
                )
            }
        }),
{
}

/// What happens in a step is told behind what was told before: the tool that ran, with
/// what it was given and what it gave, and then the next one as begun where one is left.
pub proof fn every_step_is_told(state: LoopState, output: String, ms: i64, next: LoopState)
    requires
        state.wf(),
        state.pending@.len() > 0,
    ensures
        ({
            let at = state.results@.len() as int;
            let u = state.pending@[at];
            let n = state.told().len() as int;
            let tool = LoopEventV::Tool { name: u.name@, args: u.input@, output: output@ };
            &&& state.ran(output, ms, Progress::RunTool(next)) ==> {
                &&& next.told().len() == n + 2
                &&& next.told().take(n) == state.told()
                &&& next.told()[n] == tool
                &&& next.told()[n + 1] == (LoopEventV::ToolStart {
                    name: state.pending@[at + 1].name@,
                    args: state.pending@[at + 1].input@,
                })
            }
            &&& state.ran(output, ms, Progress::AskModel(next)) ==> {
                &&& next.told().len() == n + 1
                &&& next.told().take(n) == state.told()
                &&& next.told()[n] == tool
            }
        }),
{
    let n = state.told().len() as int;
    if state.ran(output, ms, Progress::RunTool(next)) || state.ran(
        output,
        ms,
        Progress::AskModel(next),
    ) {
        assert(next.told().take(n) =~= state.told());
    }
}

} // verus!
