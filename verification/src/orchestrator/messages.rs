//! Messages of a session and of a model, and how the one become the other.

use crate::text;
use vstd::prelude::*;

verus! {

/// A moment: seconds since the epoch, and nanoseconds after them.
#[derive(Clone, Copy, Debug, PartialEq, Eq, Structural)]
pub struct Timestamp {
    pub secs: i64,
    pub nanos: u32,
}

pub const NANOS_PER_SECOND: i128 = 1_000_000_000;

pub const NANOS_PER_MINUTE: i128 = 60_000_000_000;

pub const NANOS_PER_HOUR: i128 = 3_600_000_000_000;

impl Timestamp {
    pub open spec fn total(self) -> int {
        self.secs * NANOS_PER_SECOND + self.nanos
    }

    /// The nanoseconds from `earlier` to `self`.
    pub fn since(self, earlier: Timestamp) -> (r: i128)
        ensures
            r == self.total() - earlier.total(),
            -40_000_000_000_000_000_000_000_000_000 < r < 40_000_000_000_000_000_000_000_000_000,
    {
        (self.secs as i128 - earlier.secs as i128) * NANOS_PER_SECOND + (self.nanos as i128
            - earlier.nanos as i128)
    }
}

/// How many whole units of `unit` nanoseconds `gap` holds, towards zero.
pub open spec fn whole_units(gap: int, unit: int) -> int {
    if gap >= 0 {
        gap / unit
    } else {
        -((-gap) / unit)
    }
}

pub open spec fn signed_decimal(n: int) -> Seq<char> {
    if n >= 0 {
        text::decimal(n as nat)
    } else {
        seq!['-'] + text::decimal((-n) as nat)
    }
}

/// A gap in days where it has 24 hours, in hours where it has one, else in minutes.
pub open spec fn gap_text(gap: int) -> Seq<char> {
    let hours = whole_units(gap, NANOS_PER_HOUR as int);
    let minutes = whole_units(gap, NANOS_PER_MINUTE as int);
    if hours >= 24 {
        text::decimal((hours / 24) as nat) + " day(s)"@
    } else if hours >= 1 {
        text::decimal(hours as nat) + " hour(s)"@
    } else {
        signed_decimal(minutes) + " minute(s)"@
    }
}

/// Writes a gap of so many nanoseconds.
pub fn format_time_gap(gap: i128) -> (r: String)
    requires
        gap > i128::MIN,
    ensures
        r@ == gap_text(gap as int),
{
    if gap >= 0 {
        let hours: u128 = (gap as u128) / 3_600_000_000_000;
        let minutes: u128 = (gap as u128) / 60_000_000_000;
        if hours >= 24 {
            let mut out = text::decimal_of(hours / 24);
            out.append(" day(s)");
            out
        } else if hours >= 1 {
            let mut out = text::decimal_of(hours);
            out.append(" hour(s)");
            out
        } else {
            let mut out = text::decimal_of(minutes);
            out.append(" minute(s)");
            out
        }
    } else {
        let minutes: u128 = ((-gap) as u128) / 60_000_000_000;
        let mut out = String::new();
        if minutes > 0 {
            out.push('-');
        }
        let digits = text::decimal_of(minutes);
        out.append(digits.as_str());
        assert(out@ == signed_decimal(-(minutes as int)));
        out.append(" minute(s)");
        out
    }
}

/// A message of a session.
#[derive(Clone, Debug)]
pub struct SessionMessage {
    pub role: String,
    pub content: String,
    pub timestamp: Option<Timestamp>,
}

/// An entry of a session's transcript.
#[derive(Clone, Debug)]
pub enum SessionEntry {
    Message { id: String, timestamp: Timestamp, message: SessionMessage },
    Other,
}

impl SessionMessage {
    pub fn copy(&self) -> (r: Self)
        ensures
            r == *self,
    {
        SessionMessage {
            role: self.role.clone(),
            content: self.content.clone(),
            timestamp: self.timestamp,
        }
    }
}

/// A part of a message to or from a model. The input of a tool is its text.
#[derive(Clone, Debug, PartialEq, Eq)]
pub enum ContentBlock {
    Text { text: String },
    Image { data: String, media_type: String },
    ToolUse { id: String, name: String, input: String },
    ToolResult { tool_use_id: String, content: String, is_error: bool },
}

#[derive(Clone, Debug)]
pub struct LlmMessage {
    pub role: String,
    pub content: Vec<ContentBlock>,
}

#[derive(Clone, Debug)]
pub struct ConversationMessage {
    pub role: String,
    pub content: String,
}

/// What a part of a message says.
pub enum ContentModel {
    Text(Seq<char>),
    Image(Seq<char>, Seq<char>),
    ToolUse(Seq<char>, Seq<char>, Seq<char>),
    ToolResult(Seq<char>, Seq<char>, bool),
}

pub struct MessageModel {
    pub role: Seq<char>,
    pub content: Seq<ContentModel>,
}

pub struct ConversationModel {
    pub role: Seq<char>,
    pub content: Seq<char>,
}

impl View for ContentBlock {
    type V = ContentModel;

    open spec fn view(&self) -> ContentModel {
        match *self {
            ContentBlock::Text { text } => ContentModel::Text(text@),
            ContentBlock::Image { data, media_type } => ContentModel::Image(data@, media_type@),
            ContentBlock::ToolUse { id, name, input } => ContentModel::ToolUse(
                id@,
                name@,
                input@,
            ),
            ContentBlock::ToolResult { tool_use_id, content, is_error } => ContentModel::ToolResult(
                tool_use_id@,
                content@,
                is_error,
            ),
        }
    }
}

pub open spec fn content_models(s: Seq<ContentBlock>) -> Seq<ContentModel> {
    Seq::new(s.len(), |i: int| s[i]@)
}

impl View for LlmMessage {
    type V = MessageModel;

    open spec fn view(&self) -> MessageModel {
        MessageModel { role: self.role@, content: content_models(self.content@) }
    }
}

pub open spec fn message_models(s: Seq<LlmMessage>) -> Seq<MessageModel> {
    Seq::new(s.len(), |i: int| s[i]@)
}

impl View for ConversationMessage {
    type V = ConversationModel;

    open spec fn view(&self) -> ConversationModel {
        ConversationModel { role: self.role@, content: self.content@ }
    }
}

pub open spec fn conversation_models(s: Seq<ConversationMessage>) -> Seq<ConversationModel> {
    Seq::new(s.len(), |i: int| s[i]@)
}

pub proof fn message_models_push(s: Seq<LlmMessage>, m: LlmMessage)
    ensures
        message_models(s.push(m)) == message_models(s).push(m@),
{
}

pub open spec fn text_message(role: Seq<char>, content: Seq<char>) -> MessageModel {
    MessageModel { role, content: seq![ContentModel::Text(content)] }
}

impl LlmMessage {
    /// A message of one text.
    pub fn of_text(role: String, content: String) -> (r: Self)
        ensures
            r@ == text_message(role@, content@),
    {
        let mut blocks: Vec<ContentBlock> = Vec::new();
        blocks.push(ContentBlock::Text { text: content });
        let r = LlmMessage { role, content: blocks };
        assert(r@.content == seq![ContentModel::Text(content@)]);
        r
    }

    pub fn user(content: String) -> (r: Self)
        ensures
            r@ == text_message("user"@, content@),
    {
        LlmMessage::of_text("user".to_owned(), content)
    }

    pub fn assistant(content: String) -> (r: Self)
        ensures
            r@ == text_message("assistant"@, content@),
    {
        LlmMessage::of_text("assistant".to_owned(), content)
    }
}

// History

/// The shortest gap that is mentioned to the model, in minutes.
pub const INACTIVITY_GAP_MINUTES: i128 = 30;

/// The gap between two messages that is long enough to be mentioned.
pub open spec fn mentioned_gap(prev: Option<Timestamp>, next: Option<Timestamp>) -> Option<int> {
    match (prev, next) {
        (Some(a), Some(b)) => {
            let gap = b.total() - a.total();
            if whole_units(gap, NANOS_PER_MINUTE as int) >= INACTIVITY_GAP_MINUTES {
                Some(gap)
            } else {
                None
            }
        },
        _ => None,
    }
}

pub open spec fn inactivity_text(gap: int) -> Seq<char> {
    "["@ + gap_text(gap) + " of inactivity has passed since the last message]"@
}

/// The history as messages to a model: each message in order, and before one
/// that comes after a long gap a note of the gap.
pub open spec fn history_messages(history: Seq<SessionMessage>) -> Seq<MessageModel>
    decreases history.len(),
{
    if history.len() == 0 {
        Seq::empty()
    } else {
        let before = history_messages(history.drop_last());
        let message = history.last();
        let prev = if history.len() >= 2 {
            history[history.len() - 2].timestamp
        } else {
            None
        };
        let said = text_message(message.role@, message.content@);
        match mentioned_gap(prev, message.timestamp) {
            Some(gap) => before.push(text_message("user"@, inactivity_text(gap))).push(said),
            None => before.push(said),
        }
    }
}

fn gap_note(prev: Option<Timestamp>, next: Option<Timestamp>) -> (r: Option<String>)
    ensures
        match r {
            Some(note) => mentioned_gap(prev, next) is Some && note@ == inactivity_text(
                mentioned_gap(prev, next)->0,
            ),
            None => mentioned_gap(prev, next) is None,
        },
{
    match (prev, next) {
        (Some(a), Some(b)) => {
            let gap: i128 = b.since(a);
            if gap >= 30 * NANOS_PER_MINUTE {
                let mut note = "[".to_owned();
                note.append(format_time_gap(gap).as_str());
                note.append(" of inactivity has passed since the last message]");
                Some(note)
            } else {
                None
            }
        },
        _ => None,
    }
}

pub fn build_messages_from_history(history: &[SessionMessage]) -> (r: Vec<LlmMessage>)
    ensures
        message_models(r@) == history_messages(history@),
{
    let mut out: Vec<LlmMessage> = Vec::new();
    let mut prev: Option<Timestamp> = None;
    let n: usize = history.len();
    assert(message_models(out@) == history_messages(history@.take(0)));
    for i in 0..n
        invariant
            n == history@.len(),
            i == 0 ==> prev is None,
            i > 0 ==> prev == history@[i - 1].timestamp,
            message_models(out@) == history_messages(history@.take(i as int)),
    {
        let ghost upto = history@.take(i + 1);
        assert(upto.drop_last() == history@.take(i as int));
        assert(upto.last() == history@[i as int]);
        match gap_note(prev, history[i].timestamp) {
            Some(note) => {
                let marker = LlmMessage::user(note);
                proof {
                    message_models_push(out@, marker);
                }
                out.push(marker);
            },
            None => {},
        }
        let said = LlmMessage::of_text(history[i].role.clone(), history[i].content.clone());
        proof {
            message_models_push(out@, said);
        }
        out.push(said);
        prev = history[i].timestamp;
    }
    assert(history@.take(n as int) == history@);
    out
}

/// Without gaps to mention, the history is handed over message by message; in
/// any case at most one note is added per message.
pub proof fn history_keeps_every_message(history: Seq<SessionMessage>)
    ensures
        history.len() <= history_messages(history).len() <= 2 * history.len(),
        (forall|i: int|
            0 < i < history.len() ==> mentioned_gap(
                history[i - 1].timestamp,
                (#[trigger] history[i]).timestamp,
            ) is None) ==> history_messages(history) == history.map_values(
            |m: SessionMessage| text_message(m.role@, m.content@),
        ),
    decreases history.len(),
{
    if history.len() > 0 {
        let less = history.drop_last();
        history_keeps_every_message(less);
        let said = |m: SessionMessage| text_message(m.role@, m.content@);
        if forall|i: int|
            0 < i < history.len() ==> mentioned_gap(
                history[i - 1].timestamp,
                (#[trigger] history[i]).timestamp,
            ) is None {
            assert forall|i: int| 0 < i < less.len() implies mentioned_gap(
                less[i - 1].timestamp,
                (#[trigger] less[i]).timestamp,
            ) is None by {
                assert(less[i] == history[i]);
                assert(less[i - 1] == history[i - 1]);
            }
            if history.len() >= 2 {
                let k = history.len() - 1;
                assert(mentioned_gap(history[k - 1].timestamp, history[k].timestamp) is None);
            }
            assert(history.map_values(said) == less.map_values(said).push(said(history.last())));
        }
    }
}

/// The history is handed over message by message. Each message comes last for
/// the history up to it, with its role and all that it says, behind what the
/// history before it gave; between the two there is a note exactly where half an
/// hour or more lies between two dated messages.
pub proof fn history_goes_message_by_message(history: Seq<SessionMessage>, i: int)
    requires
        0 <= i < history.len(),
    ensures
        ({
            let before = history_messages(history.take(i));
            let after = history_messages(history.take(i + 1));
            let paused = i > 0 && (history[i - 1].timestamp matches Some(a)
                && history[i].timestamp matches Some(b) && (b.secs - a.secs) * 1_000_000_000 + (
            b.nanos - a.nanos) >= 1_800_000_000_000);
            &&& after.len() == before.len() + if paused {
                2int
            } else {
                1int
            }
            &&& after.take(before.len() as int) == before
            &&& after.last().role == history[i].role@
            &&& after.last().content == seq![ContentModel::Text(history[i].content@)]
            &&& paused ==> after[before.len() as int].role == "user"@
            &&& paused ==> (after[before.len() as int].content[0] matches ContentModel::Text(note)
                && after[before.len() as int].content.len() == 1 && text::starts_with(note, "["@)
                && text::ends_with(note, " of inactivity has passed since the last message]"@))
            &&& paused ==> after[before.len() as int].content[0] == ContentModel::Text(
                "["@ + gap_text(
                    ((history[i].timestamp->0).secs - (history[i - 1].timestamp->0).secs)
                        * 1_000_000_000 + ((history[i].timestamp->0).nanos - (history[i
                        - 1].timestamp->0).nanos),
                ) + " of inactivity has passed since the last message]"@,
            )
        }),
{
    let upto = history.take(i + 1);
    assert(upto.drop_last() =~= history.take(i));
    assert(upto.last() == history[i]);
    let before = history_messages(history.take(i));
    let after = history_messages(upto);
    if i > 0 {
        assert(upto[i - 1] == history[i - 1]);
        match mentioned_gap(history[i - 1].timestamp, history[i].timestamp) {
            Some(gap) => {
                let note = inactivity_text(gap);
                let end = " of inactivity has passed since the last message]"@;
                assert(note.take("["@.len() as int) =~= "["@);
                assert(note.skip(note.len() - end.len()) =~= end);
                assert(after.take(before.len() as int) =~= before);
            },
            None => {
                assert(after.take(before.len() as int) =~= before);
            },
        }
    } else {
        assert(after.take(before.len() as int) =~= before);
    }
}

/// What the history up to a message gives stands at the start of what the whole
/// history gives.
pub proof fn history_grows_at_its_end(history: Seq<SessionMessage>, n: int)
    requires
        0 <= n <= history.len(),
    ensures
        ({
            let start = history_messages(history.take(n));
            let all = history_messages(history);
            start.len() <= all.len() && all.take(start.len() as int) == start
        }),
    decreases history.len() - n,
{
    let all = history_messages(history);
    if n == history.len() {
        assert(history.take(n) =~= history);
        assert(all.take(all.len() as int) =~= all);
    } else {
        history_grows_at_its_end(history, n + 1);
        history_goes_message_by_message(history, n);
        let start = history_messages(history.take(n));
        let next = history_messages(history.take(n + 1));
        assert(all.take(start.len() as int) =~= next.take(start.len() as int));
    }
}

/// A pause is told in the largest unit that it holds: `n` whole days, else `n`
/// whole hours, else `n` whole minutes.
pub proof fn gaps_are_told_in_their_unit(gap: int, n: nat)
    ensures
        n >= 1 && n * 86_400_000_000_000 <= gap < (n + 1) * 86_400_000_000_000 ==> gap_text(gap)
            == text::decimal(n) + " day(s)"@,
        1 <= n < 24 && n * 3_600_000_000_000 <= gap < (n + 1) * 3_600_000_000_000 ==> gap_text(gap)
            == text::decimal(n) + " hour(s)"@,
        n < 60 && n * 60_000_000_000 <= gap < (n + 1) * 60_000_000_000 ==> gap_text(gap)
            == text::decimal(n) + " minute(s)"@,
{
}

/// The content of a user's message: its text, unless it is empty, and the
/// blocks of its attachments.
pub fn build_user_content(user_text: String, attachment_blocks: Vec<ContentBlock>) -> (r: Vec<
    ContentBlock,
>)
    ensures
        r@ == (if user_text@.len() == 0 {
            attachment_blocks@
        } else {
            seq![ContentBlock::Text { text: user_text }] + attachment_blocks@
        }),
{
    let mut content: Vec<ContentBlock> = Vec::new();
    let mut rest = attachment_blocks;
    if !user_text.as_str().is_empty() {
        content.push(ContentBlock::Text { text: user_text });
    }
    content.append(&mut rest);
    content
}

// Recent messages

/// The trimmed texts of a message that are not empty.
pub open spec fn said_parts(content: Seq<ContentModel>) -> Seq<Seq<char>>
    decreases content.len(),
{
    if content.len() == 0 {
        Seq::empty()
    } else {
        let before = said_parts(content.drop_last());
        match content.last() {
            ContentModel::Text(t) => if text::trim(t).len() > 0 {
                before.push(text::trim(t))
            } else {
                before
            },
            _ => before,
        }
    }
}

/// What the messages say, message by message, without those that say nothing.
pub open spec fn conversation(messages: Seq<MessageModel>) -> Seq<ConversationModel>
    decreases messages.len(),
{
    if messages.len() == 0 {
        Seq::empty()
    } else {
        let before = conversation(messages.drop_last());
        let message = messages.last();
        if said_parts(message.content).len() == 0 {
            before
        } else {
            before.push(
                ConversationModel {
                    role: message.role,
                    content: text::joined(said_parts(message.content), "\n"@),
                },
            )
        }
    }
}

/// The last `n` elements of `s`, or all of them.
pub open spec fn last_of<A>(s: Seq<A>, n: int) -> Seq<A> {
    if s.len() <= n {
        s
    } else {
        s.skip(s.len() - n)
    }
}

fn said_parts_of(content: &[ContentBlock]) -> (r: Vec<String>)
    ensures
        text::views(r@) == said_parts(content_models(content@)),
{
    let mut parts: Vec<String> = Vec::new();
    let n: usize = content.len();
    let ghost all = content_models(content@);
    assert(text::views(parts@) == said_parts(all.take(0)));
    for i in 0..n
        invariant
            n == content@.len(),
            all == content_models(content@),
            text::views(parts@) == said_parts(all.take(i as int)),
    {
        assert(all.take(i + 1).drop_last() == all.take(i as int));
        assert(all.take(i + 1).last() == content@[i as int]@);
        match &content[i] {
            ContentBlock::Text { text } => {
                let trimmed = text::trimmed(text.as_str());
                if !trimmed.as_str().is_empty() {
                    proof {
                        text::views_push(parts@, trimmed);
                    }
                    parts.push(trimmed);
                }
            },
            _ => {},
        }
    }
    assert(all.take(n as int) == all);
    parts
}

/// The last messages that say something, at most `limit` of them but at least
/// the last one.
pub fn collect_recent_messages(messages: &[LlmMessage], limit: usize) -> (r: Vec<
    ConversationMessage,
>)
    ensures
        conversation_models(r@) == last_of(
            conversation(message_models(messages@)),
            if limit == 0 {
                1
            } else {
                limit as int
            },
        ),
{
    let mut out: Vec<ConversationMessage> = Vec::new();
    let n: usize = messages.len();
    let ghost all = message_models(messages@);
    assert(conversation_models(out@) == conversation(all.take(0)));
    for i in 0..n
        invariant
            n == messages@.len(),
            all == message_models(messages@),
            conversation_models(out@) == conversation(all.take(i as int)),
    {
        assert(all.take(i + 1).drop_last() == all.take(i as int));
        assert(all.take(i + 1).last() == messages@[i as int]@);
        let parts = said_parts_of(messages[i].content.as_slice());
        assert(text::views(parts@).len() == parts@.len());
        if parts.len() > 0 {
            let ghost before = conversation_models(out@);
            let message = ConversationMessage {
                role: messages[i].role.clone(),
                content: text::join(parts.as_slice(), "\n"),
            };
            out.push(message);
            assert(conversation_models(out@) == before.push(message@));
        }
    }
    assert(all.take(n as int) == all);
    let keep: usize = if limit == 0 {
        1
    } else {
        limit
    };
    let ghost said = conversation_models(out@);
    if out.len() <= keep {
        out
    } else {
        let at: usize = out.len() - keep;
        let tail = out.split_off(at);
        assert(conversation_models(tail@) == said.skip(at as int));
        tail
    }
}

// Pairs of tool uses and tool results

pub open spec fn is_assistant(m: LlmMessage) -> bool {
    m.role@ == "assistant"@
}

pub open spec fn uses_tool(m: LlmMessage, id: Seq<char>) -> bool {
    exists|i: int|
        0 <= i < m.content@.len() && ((#[trigger] m.content@[i]) matches ContentBlock::ToolUse {
            id: x,
            ..
        } && x@ == id)
}

pub open spec fn answers_tool(m: LlmMessage, id: Seq<char>) -> bool {
    exists|i: int|
        0 <= i < m.content@.len() && ((#[trigger] m.content@[i]) matches ContentBlock::ToolResult {
            tool_use_id,
            ..
        } && tool_use_id@ == id)
}

pub open spec fn uses_some_tool(m: LlmMessage) -> bool {
    exists|i: int| 0 <= i < m.content@.len() && (#[trigger] m.content@[i]) is ToolUse
}

/// The message at `i` uses no tool, or the message after it is a user's and
/// answers every tool that it uses.
pub open spec fn paired_at(messages: Seq<LlmMessage>, i: int) -> bool {
    uses_some_tool(messages[i]) ==> {
        &&& i + 1 < messages.len()
        &&& messages[i + 1].role@ == "user"@
        &&& forall|id: Seq<char>| #[trigger]
            uses_tool(messages[i], id) ==> answers_tool(messages[i + 1], id)
    }
}

/// The position of the last assistant's message.
pub open spec fn last_assistant(messages: Seq<LlmMessage>) -> Option<int>
    decreases messages.len(),
{
    if messages.len() == 0 {
        None
    } else if is_assistant(messages.last()) {
        Some(messages.len() - 1)
    } else {
        last_assistant(messages.drop_last())
    }
}

/// The messages up to the last assistant's message where its tool uses are not
/// answered, else all of them.
pub open spec fn repaired(messages: Seq<LlmMessage>) -> Seq<LlmMessage> {
    match last_assistant(messages) {
        None => messages,
        Some(i) => if paired_at(messages, i) {
            messages
        } else {
            messages.take(i)
        },
    }
}

fn find_last_assistant(messages: &Vec<LlmMessage>) -> (r: Option<usize>)
    ensures
        match r {
            Some(i) => i < messages@.len() && last_assistant(messages@) == Some(i as int),
            None => last_assistant(messages@) is None,
        },
{
    let mut j: usize = messages.len();
    assert(messages@.take(j as int) == messages@);
    while j > 0
        invariant
            j <= messages@.len(),
            last_assistant(messages@) == last_assistant(messages@.take(j as int)),
        decreases j,
    {
        assert(messages@.take(j as int).last() == messages@[j - 1]);
        assert(messages@.take(j as int).drop_last() == messages@.take(j - 1));
        if text::same_text(messages[j - 1].role.as_str(), "assistant") {
            return Some(j - 1);
        }
        j = j - 1;
    }
    None
}

fn has_answer(m: &LlmMessage, id: &str) -> (r: bool)
    ensures
        r == answers_tool(*m, id@),
{
    let n: usize = m.content.len();
    for i in 0..n
        invariant
            n == m.content@.len(),
            forall|k: int|
                0 <= k < i ==> !((#[trigger] m.content@[k]) matches ContentBlock::ToolResult {
                    tool_use_id,
                    ..
                } && tool_use_id@ == id@),
    {
        match &m.content[i] {
            ContentBlock::ToolResult { tool_use_id, .. } => {
                if text::same_text(tool_use_id.as_str(), id) {
                    assert(m.content@[i as int] matches ContentBlock::ToolResult {
                        tool_use_id,
                        ..
                    } && tool_use_id@ == id@);
                    return true;
                }
            },
            _ => {},
        }
    }
    false
}

fn is_paired_at(messages: &Vec<LlmMessage>, at: usize) -> (r: bool)
    requires
        at < messages@.len(),
    ensures
        r == paired_at(messages@, at as int),
{
    let n: usize = messages[at].content.len();
    let ghost m = messages@[at as int];
    let total: usize = messages.len();
    let answered = at < total - 1 && text::same_text(messages[at + 1].role.as_str(), "user");
    for i in 0..n
        invariant
            at < total,
            total == messages@.len(),
            m == messages@[at as int],
            n == m.content@.len(),
            answered == (at + 1 < messages@.len() && messages@[at + 1].role@ == "user"@),
            forall|k: int|
                0 <= k < i ==> ((#[trigger] m.content@[k]) matches ContentBlock::ToolUse { id, .. }
                    ==> answered && answers_tool(messages@[at + 1], id@)),
    {
        match &messages[at].content[i] {
            ContentBlock::ToolUse { id, .. } => {
                assert(m.content@[i as int] is ToolUse);
                assert(uses_some_tool(m));
                assert(uses_tool(m, id@));
                if !answered {
                    return false;
                }
                if !has_answer(&messages[at + 1], id.as_str()) {
                    return false;
                }
            },
            _ => {},
        }
    }
    proof {
        if uses_some_tool(m) {
            let k = choose|k: int| 0 <= k < m.content@.len() && (#[trigger] m.content@[k]) is ToolUse;
            assert(answered);
        }
    }
    true
}

pub fn repair_tool_pairing(messages: &mut Vec<LlmMessage>)
    ensures
        final(messages)@ == repaired(old(messages)@),
{
    match find_last_assistant(messages) {
        None => {},
        Some(i) => {
            if !is_paired_at(messages, i) {
                messages.truncate(i);
            }
        },
    }
}

proof fn last_assistant_is_last(messages: Seq<LlmMessage>)
    ensures
        match last_assistant(messages) {
            Some(i) => {
                &&& 0 <= i < messages.len()
                &&& is_assistant(messages[i])
                &&& forall|k: int| i < k < messages.len() ==> !is_assistant(#[trigger] messages[k])
            },
            None => forall|k: int|
                0 <= k < messages.len() ==> !is_assistant(#[trigger] messages[k]),
        },
    decreases messages.len(),
{
    if messages.len() > 0 && !is_assistant(messages.last()) {
        let less = messages.drop_last();
        last_assistant_is_last(less);
        assert forall|k: int| 0 <= k < messages.len() - 1 implies less[k] == messages[k] by {}
    }
}

/// Repair only shortens: it keeps a leading part of the messages, and keeps all
/// of them where the last assistant's tool uses are answered.
pub proof fn repair_keeps_a_prefix(messages: Seq<LlmMessage>)
    ensures
        repaired(messages).len() <= messages.len(),
        repaired(messages) == messages.take(repaired(messages).len() as int),
{
    last_assistant_is_last(messages);
    assert(messages.take(messages.len() as int) == messages);
}

/// Where every assistant's message but the last one is paired, repair leaves
/// messages in which every assistant's message is paired, and a second repair
/// changes nothing.
pub proof fn repair_restores_pairing(messages: Seq<LlmMessage>)
    requires
        forall|i: int|
            0 <= i < messages.len() && is_assistant(messages[i]) && last_assistant(messages) != Some(
                i,
            ) ==> #[trigger] paired_at(messages, i),
    ensures
        forall|i: int|
            0 <= i < repaired(messages).len() && is_assistant(repaired(messages)[i])
                ==> #[trigger] paired_at(repaired(messages), i),
        repaired(repaired(messages)) == repaired(messages),
{
    last_assistant_is_last(messages);
    let r = repaired(messages);
    last_assistant_is_last(r);
    match last_assistant(messages) {
        None => {},
        Some(at) => {
            if paired_at(messages, at) {
                assert forall|i: int|
                    0 <= i < r.len() && is_assistant(r[i]) implies #[trigger] paired_at(r, i) by {
                    if i != at {
                        assert(paired_at(messages, i));
                    }
                }
            } else {
                assert forall|i: int|
                    0 <= i < r.len() && is_assistant(r[i]) implies #[trigger] paired_at(r, i) by {
                    assert(r[i] == messages[i]);
                    assert(paired_at(messages, i));
                    if uses_some_tool(messages[i]) {
                        reveal_strlit("assistant");
                        reveal_strlit("user");
                        assert("assistant"@.len() != "user"@.len());
                        assert(i + 1 != at);
                        assert(r[i + 1] == messages[i + 1]);
                    }
                }
            }
        },
    }
}

/// Where the tool uses of the last assistant's message are all answered by the
/// user's message behind it, repair changes nothing; where one is not, that
/// message goes, with all behind it, and nothing before it. Messages without an
/// assistant's stay.
pub proof fn unanswered_calls_are_cut(messages: Seq<LlmMessage>, at: int)
    requires
        0 <= at < messages.len(),
        messages[at].role@ == "assistant"@,
        forall|k: int| at < k < messages.len() ==> (#[trigger] messages[k]).role@ != "assistant"@,
    ensures
        ({
            let content = messages[at].content@;
            let answered = forall|j: int|
                0 <= j < content.len() ==> ((#[trigger] content[j]) matches ContentBlock::ToolUse {
                    id,
                    ..
                } ==> at + 1 < messages.len() && messages[at + 1].role@ == "user"@ && answers_tool(
                    messages[at + 1],
                    id@,
                ));
            repaired(messages) == if answered {
                messages
            } else {
                messages.take(at)
            }
        }),
{
    last_assistant_is_last(messages);
    match last_assistant(messages) {
        None => {
            assert(!is_assistant(messages[at]));
        },
        Some(i) => {
            if i < at {
                assert(!is_assistant(messages[at]));
            } else if i > at {
                assert(messages[i].role@ != "assistant"@);
            }
        },
    }
    let m = messages[at];
    let content = m.content@;
    if paired_at(messages, at) {
        assert forall|j: int| 0 <= j < content.len() implies ((
        #[trigger] content[j]) matches ContentBlock::ToolUse { id, .. } ==> at + 1 < messages.len()
            && messages[at + 1].role@ == "user"@ && answers_tool(messages[at + 1], id@)) by {
            match content[j] {
                ContentBlock::ToolUse { id, .. } => {
                    assert(m.content@[j] is ToolUse);
                    assert(uses_tool(m, id@));
                },
                _ => {},
            }
        }
    } else if uses_some_tool(m) {
        let j = choose|j: int| 0 <= j < m.content@.len() && (#[trigger] m.content@[j]) is ToolUse;
        assert(content[j] is ToolUse);
        if at + 1 < messages.len() && messages[at + 1].role@ == "user"@ {
            let id = choose|id: Seq<char>| #[trigger]
                uses_tool(m, id) && !answers_tool(messages[at + 1], id);
            let k = choose|k: int|
                0 <= k < m.content@.len() && ((
                #[trigger] m.content@[k]) matches ContentBlock::ToolUse { id: x, .. } && x@ == id);
            assert(content[k] is ToolUse);
        }
    }
}

proof fn said_parts_are_the_texts(content: Seq<ContentModel>)
    ensures
        forall|i: int|
            0 <= i < content.len() ==> ((#[trigger] content[i]) matches ContentModel::Text(t)
                ==> text::trim(t).len() > 0 ==> said_parts(content).contains(text::trim(t))),
        said_parts(content).len() > 0 ==> exists|i: int|
            0 <= i < content.len() && ((#[trigger] content[i]) matches ContentModel::Text(t)
                && text::trim(t).len() > 0),
    decreases content.len(),
{
    if content.len() > 0 {
        let less = content.drop_last();
        said_parts_are_the_texts(less);
        let before = said_parts(less);
        let all = said_parts(content);
        let end = content.len() - 1;
        assert forall|i: int| 0 <= i < content.len() implies ((
        #[trigger] content[i]) matches ContentModel::Text(t) ==> text::trim(t).len() > 0
            ==> all.contains(text::trim(t))) by {
            match content[i] {
                ContentModel::Text(t) => {
                    if text::trim(t).len() > 0 {
                        if i < end {
                            assert(less[i] == content[i]);
                            let k = choose|k: int|
                                0 <= k < before.len() && before[k] == text::trim(t);
                            assert(all[k] == text::trim(t));
                        } else {
                            assert(all[before.len() as int] == text::trim(t));
                        }
                    }
                },
                _ => {},
            }
        }
        if before.len() > 0 {
            let i = choose|i: int|
                0 <= i < less.len() && ((#[trigger] less[i]) matches ContentModel::Text(t)
                    && text::trim(t).len() > 0);
            assert(content[i] == less[i]);
        } else if all.len() > 0 {
            assert(content[end] == content.last());
        }
    }
}

/// A message joins the recent ones exactly where one of its texts says something:
/// behind those before it, under its role, with every such text in it.
pub proof fn recent_messages_hold_what_was_said(messages: Seq<MessageModel>, m: MessageModel)
    ensures
        ({
            let before = conversation(messages);
            let after = conversation(messages.push(m));
            let speaks = exists|i: int|
                0 <= i < m.content.len() && ((#[trigger] m.content[i]) matches ContentModel::Text(t)
                    && text::trim(t).len() > 0);
            &&& !speaks ==> after == before
            &&& speaks ==> {
                &&& after.len() == before.len() + 1
                &&& after.take(before.len() as int) == before
                &&& after.last().role == m.role
                &&& forall|i: int|
                    0 <= i < m.content.len() ==> ((
                    #[trigger] m.content[i]) matches ContentModel::Text(t) ==> text::trim(t).len()
                        > 0 ==> text::contains(after.last().content, text::trim(t)))
            }
        }),
{
    let all = messages.push(m);
    assert(all.drop_last() =~= messages);
    said_parts_are_the_texts(m.content);
    let parts = said_parts(m.content);
    let before = conversation(messages);
    let after = conversation(all);
    if parts.len() > 0 {
        assert(after.take(before.len() as int) =~= before);
        assert forall|i: int| 0 <= i < m.content.len() implies ((
        #[trigger] m.content[i]) matches ContentModel::Text(t) ==> text::trim(t).len() > 0
            ==> text::contains(after.last().content, text::trim(t))) by {
            match m.content[i] {
                ContentModel::Text(t) => {
                    if text::trim(t).len() > 0 {
                        let k = choose|k: int| 0 <= k < parts.len() && parts[k] == text::trim(t);
                        text::joined_holds_its_parts(parts, "\n"@, k);
                    }
                },
                _ => {},
            }
        }
    }
}

/// A message of one text is told by that text without blank ends.
pub proof fn a_single_text_is_told_as_it_is(messages: Seq<MessageModel>, role: Seq<char>, t: Seq<char>)
    requires
        text::trim(t).len() > 0,
    ensures
        conversation(
            messages.push(MessageModel { role, content: seq![ContentModel::Text(t)] }),
        ) == conversation(messages).push(ConversationModel { role, content: text::trim(t) }),
{
    let content = seq![ContentModel::Text(t)];
    let all = messages.push(MessageModel { role, content });
    assert(all.drop_last() =~= messages);
    assert(content.drop_last() =~= Seq::<ContentModel>::empty());
    assert(said_parts(content.drop_last()) == Seq::<Seq<char>>::empty());
    assert(said_parts(content) =~= seq![text::trim(t)]);
}

/// Of a sequence the last elements are taken: as many as asked for where there
/// are so many, and else all.
pub proof fn the_last_are_taken<A>(a: Seq<A>, b: Seq<A>)
    ensures
        last_of(a + b, b.len() as int) == b,
        last_of(b, (a.len() + b.len()) as int) == b,
{
    assert(last_of(a + b, b.len() as int) =~= b);
}

/// A message uses a tool where one of its blocks is a call with that name, and
/// answers one where one of its blocks is the result of that call; texts and
/// images do neither.
pub proof fn blocks_use_and_answer(m: LlmMessage, id: Seq<char>)
    ensures
        uses_tool(m, id) ==> exists|i: int|
            0 <= i < m.content@.len() && (#[trigger] m.content@[i])@ is ToolUse
                && m.content@[i]@->ToolUse_0 == id,
        answers_tool(m, id) ==> exists|i: int|
            0 <= i < m.content@.len() && (#[trigger] m.content@[i])@ is ToolResult
                && m.content@[i]@->ToolResult_0 == id,
        forall|i: int|
            0 <= i < m.content@.len() && (#[trigger] m.content@[i])@ is ToolUse
                && m.content@[i]@->ToolUse_0 == id ==> uses_tool(m, id),
        forall|i: int|
            0 <= i < m.content@.len() && (#[trigger] m.content@[i])@ is ToolResult
                && m.content@[i]@->ToolResult_0 == id ==> answers_tool(m, id),
{
    if uses_tool(m, id) {
        let i = choose|i: int|
            0 <= i < m.content@.len() && ((#[trigger] m.content@[i]) matches ContentBlock::ToolUse {
                id: x,
                ..
            } && x@ == id);
        assert(m.content@[i]@->ToolUse_0 == id);
    }
    if answers_tool(m, id) {
        let i = choose|i: int|
            0 <= i < m.content@.len() && ((
            #[trigger] m.content@[i]) matches ContentBlock::ToolResult { tool_use_id, .. }
                && tool_use_id@ == id);
        assert(m.content@[i]@->ToolResult_0 == id);
    }
}

} // verus!
