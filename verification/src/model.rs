//! What is said to a model and what it says back.

use vstd::prelude::*;

verus! {

#[derive(Debug, Clone, Copy, PartialEq, Eq, Structural)]
pub enum Role {
    User,
    Assistant,
}

/// One block of a message. A tool's arguments are held as rendered JSON.
#[derive(Debug, Clone, PartialEq, Eq)]
pub enum ContentBlock {
    Text { text: String },
    ToolUse { id: String, name: String, input: String },
    ToolResult { tool_use_id: String, content: String },
}

#[verifier::ext_equal]
pub enum BlockV {
    Text { text: Seq<char> },
    ToolUse { id: Seq<char>, name: Seq<char>, input: Seq<char> },
    ToolResult { tool_use_id: Seq<char>, content: Seq<char> },
}

impl View for ContentBlock {
    type V = BlockV;

    open spec fn view(&self) -> BlockV {
        match *self {
            ContentBlock::Text { text } => BlockV::Text { text: text@ },
            ContentBlock::ToolUse { id, name, input } => BlockV::ToolUse {
                id: id@,
                name: name@,
                input: input@,
            },
            ContentBlock::ToolResult { tool_use_id, content } => BlockV::ToolResult {
                tool_use_id: tool_use_id@,
                content: content@,
            },
        }
    }
}

#[derive(Debug, Clone, PartialEq, Eq)]
pub struct Message {
    pub role: Role,
    pub content: Vec<ContentBlock>,
}

#[verifier::ext_equal]
pub struct MessageV {
    pub role: Role,
    pub content: Seq<BlockV>,
}

pub open spec fn block_views(blocks: Seq<ContentBlock>) -> Seq<BlockV> {
    blocks.map_values(|b: ContentBlock| b@)
}

pub open spec fn message_views(messages: Seq<Message>) -> Seq<MessageV> {
    messages.map_values(|m: Message| m@)
}

impl View for Message {
    type V = MessageV;

    open spec fn view(&self) -> MessageV {
        MessageV { role: self.role, content: block_views(self.content@) }
    }
}

/// A message of one text block.
pub open spec fn text_message(role: Role, text: Seq<char>) -> MessageV {
    MessageV { role, content: seq![BlockV::Text { text }] }
}

impl Message {
    pub fn from_text(role: Role, text: String) -> (r: Message)
        ensures
            r@ == text_message(role, text@),
    {
        let mut content: Vec<ContentBlock> = Vec::new();
        content.push(ContentBlock::Text { text });
        let r = Message { role, content };
        assert(r@.content =~= seq![BlockV::Text { text: text@ }]);
        r
    }

    pub fn user_text(text: String) -> (r: Message)
        ensures
            r@ == text_message(Role::User, text@),
    {
        Message::from_text(Role::User, text)
    }
}

fn copy_block(block: &ContentBlock) -> (r: ContentBlock)
    ensures
        r@ == block@,
{
    match block {
        ContentBlock::Text { text } => ContentBlock::Text { text: text.clone() },
        ContentBlock::ToolUse { id, name, input } => ContentBlock::ToolUse {
            id: id.clone(),
            name: name.clone(),
            input: input.clone(),
        },
        ContentBlock::ToolResult { tool_use_id, content } => ContentBlock::ToolResult {
            tool_use_id: tool_use_id.clone(),
            content: content.clone(),
        },
    }
}

fn copy_message(message: &Message) -> (r: Message)
    ensures
        r@ == message@,
{
    let ghost all = message@.content;
    let mut content: Vec<ContentBlock> = Vec::new();
    let mut i: usize = 0;
    assert(block_views(content@) =~= all.take(0));
    while i < message.content.len()
        invariant
            i <= message.content@.len(),
            all == block_views(message.content@),
            block_views(content@) == all.take(i as int),
        decreases message.content@.len() - i,
    {
        let ghost before = block_views(content@);
        let block = copy_block(&message.content[i]);
        content.push(block);
        assert(block_views(content@) =~= before.push(block@));
        i += 1;
        assert(all.take(i as int) =~= before.push(block@));
    }
    assert(all.take(i as int) =~= all);
    Message { role: message.role, content }
}

/// The same conversation once more.
pub fn copy_messages(messages: &Vec<Message>) -> (r: Vec<Message>)
    ensures
        message_views(r@) == message_views(messages@),
{
    let ghost all = message_views(messages@);
    let mut r: Vec<Message> = Vec::new();
    let mut i: usize = 0;
    assert(message_views(r@) =~= all.take(0));
    while i < messages.len()
        invariant
            i <= messages@.len(),
            all == message_views(messages@),
            message_views(r@) == all.take(i as int),
        decreases messages@.len() - i,
    {
        let ghost before = message_views(r@);
        let message = copy_message(&messages[i]);
        r.push(message);
        assert(message_views(r@) =~= before.push(message@));
        i += 1;
        assert(all.take(i as int) =~= before.push(message@));
    }
    assert(all.take(i as int) =~= all);
    r
}

/// Tokens counted by a provider.
#[derive(Debug, Clone, Copy, PartialEq, Eq, Structural)]
pub struct Usage {
    pub input_tokens: i64,
    pub output_tokens: i64,
}

impl Default for Usage {
    fn default() -> (r: Usage)
        ensures
            r.input_tokens == 0,
            r.output_tokens == 0,
    {
        Usage { input_tokens: 0, output_tokens: 0 }
    }
}

/// A tool as it is described to a model. The schema is rendered JSON.
#[derive(Debug, Clone, PartialEq, Eq)]
pub struct ToolSchema {
    pub name: String,
    pub description: String,
    pub input_schema: String,
}

/// One call of a model.
#[derive(Debug, Clone, PartialEq, Eq)]
pub struct CreateRequest {
    pub model: String,
    pub system: Option<String>,
    pub messages: Vec<Message>,
    pub tools: Vec<ToolSchema>,
    pub max_tokens: i32,
}

impl CreateRequest {
    /// A single question, put without tools.
    pub open spec fn asks(
        self,
        model: Seq<char>,
        system: Option<Seq<char>>,
        prompt: Seq<char>,
        max_tokens: int,
    ) -> bool {
        &&& self.model@ == model
        &&& match self.system {
            Some(s) => system == Some(s@),
            None => system is None,
        }
        &&& message_views(self.messages@) == seq![text_message(Role::User, prompt)]
        &&& self.tools@.len() == 0
        &&& self.max_tokens == max_tokens
    }

    pub fn question(model: &str, system: Option<String>, prompt: String, max_tokens: i32) -> (r:
        CreateRequest)
        ensures
            r.asks(
                model@,
                match system {
                    Some(s) => Some(s@),
                    None => None,
                },
                prompt@,
                max_tokens as int,
            ),
    {
        let mut messages: Vec<Message> = Vec::new();
        messages.push(Message::user_text(prompt));
        assert(message_views(messages@) =~= seq![text_message(Role::User, prompt@)]);
        CreateRequest { model: model.to_owned(), system, messages, tools: Vec::new(), max_tokens }
    }
}

/// A message is known by who says it and by all of its blocks; a block is known by
/// everything in it.
pub proof fn a_message_is_known_by_all_of_it(m: Message, i: int)
    requires
        0 <= i < m.content@.len(),
    ensures
        m@.role == m.role,
        m@.content.len() == m.content@.len(),
        match m.content@[i] {
            ContentBlock::Text { text } => m@.content[i] == (BlockV::Text { text: text@ }),
            ContentBlock::ToolUse { id, name, input } => m@.content[i] == (BlockV::ToolUse {
                id: id@,
                name: name@,
                input: input@,
            }),
            ContentBlock::ToolResult { tool_use_id, content } => m@.content[i]
                == (BlockV::ToolResult { tool_use_id: tool_use_id@, content: content@ }),
        },
{
}

/// A question is one message of the user's, which says all of the prompt and nothing
/// else; no tool comes with it.
pub proof fn a_question_is_its_prompt(
    request: CreateRequest,
    model: Seq<char>,
    system: Option<Seq<char>>,
    prompt: Seq<char>,
    max_tokens: int,
)
    requires
        request.asks(model, system, prompt, max_tokens),
    ensures
        request.model@ == model,
        request.max_tokens == max_tokens,
        request.tools@.len() == 0,
        request.messages@.len() == 1,
        request.messages@[0].role == Role::User,
        request.messages@[0].content@.len() == 1,
        request.messages@[0].content@[0] matches ContentBlock::Text { text } && text@ == prompt,
        system matches Some(s) ==> request.system is Some && request.system->0@ == s,
        system is None ==> request.system is None,
{
    let all = message_views(request.messages@);
    assert(all.len() == 1);
    assert(all[0] == text_message(Role::User, prompt));
    assert(all[0] == request.messages@[0]@);
    let blocks = block_views(request.messages@[0].content@);
    assert(blocks.len() == 1);
    assert(blocks[0] == BlockV::Text { text: prompt });
    assert(blocks[0] == request.messages@[0].content@[0]@);
}

} // verus!
