//! The rounds between a model and its tools.
//!
//! The model and the tools are asked from outside. What is asked next, what is
//! told the model, and when the rounds end is decided here.

use crate::orchestrator::messages;
use crate::orchestrator::messages::{ContentBlock, ContentModel, LlmMessage, MessageModel};
use crate::orchestrator::predicates;
use crate::orchestrator::predicates::EmptyPromiseVerdict;
use crate::seqs;
use crate::text;
use vstd::prelude::*;

verus! {

pub const DEFAULT_MAX_ITERATIONS: usize = 50;

/// What is said where the user stopped the task.
pub const STOPPED_TEXT: &'static str = "[Task stopped by user]";

/// What is told the model when its rounds are used up.
pub const EXHAUSTED_NUDGE: &'static str =
    "You have reached the maximum number of tool iterations. Please provide your final response to the user based on the information gathered above.";

pub const WEB_SEARCH_NUDGE: &'static str =
    "You must call the web_search tool now and then provide the answer based on the tool result.";

pub const FABRICATED_TASK_NUDGE: &'static str =
    "[SYSTEM] You responded without making any tool calls. This is UNACCEPTABLE for a scheduled task. You MUST use tools to execute the task. Start with step 1 RIGHT NOW: call execute_command or read_file to begin the work. Do NOT reply with text — your next message MUST contain tool_use blocks.";

pub const FABRICATED_NUDGE: &'static str =
    "[SYSTEM] You claimed to have performed actions, but you did not make any tool calls. Do NOT fabricate results. Call the appropriate tool (execute_command, read_file, write_file, etc.) RIGHT NOW to actually carry out the action.";

pub const TRUNCATED_TASK_NUDGE: &'static str =
    "[SYSTEM] Your output was truncated due to length limits. Do NOT repeat what you already wrote. Continue from where you left off and use tools (write_file, execute_command) to complete the remaining steps.";

pub const TRUNCATED_NUDGE: &'static str =
    "[SYSTEM] Your response was cut short due to length limits. Summarize the key findings concisely. Do NOT repeat what you already wrote. Focus on the most important information only.";

pub const INCOMPLETE_TASK_NUDGE: &'static str =
    "[SYSTEM] You stopped mid-task with a planning statement instead of producing output. Continue executing — use tools to complete the task and produce the final deliverable.";

pub const INCOMPLETE_NUDGE: &'static str =
    "[SYSTEM] You announced your intent but did not act on it. Do NOT describe what you plan to do — call the appropriate tool NOW to actually do it.";

pub const EMPTY_PROMISE_NUDGE: &'static str =
    "[SYSTEM] Your response announced or promised content but did not deliver it. Output the actual content NOW. Do NOT repeat the introduction or announce what you plan to do — just produce the content.";

/// Why a reply is sent back to the model.
#[derive(Clone, Copy, Debug, PartialEq, Eq, Structural)]
pub enum Nudge {
    /// A web search was asked for and not made.
    WebSearch,
    /// An action is claimed and no tool was called.
    Fabricated,
    /// The reply was cut short.
    Truncated,
    /// The reply announces the next step without taking it.
    Incomplete,
    /// The reply promises content without giving it.
    EmptyPromise,
}

impl Nudge {
    pub open spec fn message(self, is_scheduled_task: bool) -> Seq<char> {
        match self {
            Nudge::WebSearch => WEB_SEARCH_NUDGE@,
            Nudge::Fabricated => if is_scheduled_task {
                FABRICATED_TASK_NUDGE@
            } else {
                FABRICATED_NUDGE@
            },
            Nudge::Truncated => if is_scheduled_task {
                TRUNCATED_TASK_NUDGE@
            } else {
                TRUNCATED_NUDGE@
            },
            Nudge::Incomplete => if is_scheduled_task {
                INCOMPLETE_TASK_NUDGE@
            } else {
                INCOMPLETE_NUDGE@
            },
            Nudge::EmptyPromise => EMPTY_PROMISE_NUDGE@,
        }
    }

    /// What the model is told.
    pub fn text(self, is_scheduled_task: bool) -> (r: &'static str)
        ensures
            r@ == self.message(is_scheduled_task),
    {
        match self {
            Nudge::WebSearch => WEB_SEARCH_NUDGE,
            Nudge::Fabricated => if is_scheduled_task {
                FABRICATED_TASK_NUDGE
            } else {
                FABRICATED_NUDGE
            },
            Nudge::Truncated => if is_scheduled_task {
                TRUNCATED_TASK_NUDGE
            } else {
                TRUNCATED_NUDGE
            },
            Nudge::Incomplete => if is_scheduled_task {
                INCOMPLETE_TASK_NUDGE
            } else {
                INCOMPLETE_NUDGE
            },
            Nudge::EmptyPromise => EMPTY_PROMISE_NUDGE,
        }
    }
}

/// A reply of the model.
#[derive(Clone, Debug)]
pub struct LlmResponse {
    pub text: String,
    pub content: Vec<ContentBlock>,
    pub stop_reason: Option<String>,
}

#[derive(Clone, Debug)]
pub struct ToolCall {
    pub id: String,
    pub name: String,
    pub input: String,
}

/// What a call of a tool says.
pub struct CallModel {
    pub id: Seq<char>,
    pub name: Seq<char>,
    pub input: Seq<char>,
}

impl View for ToolCall {
    type V = CallModel;

    open spec fn view(&self) -> CallModel {
        CallModel { id: self.id@, name: self.name@, input: self.input@ }
    }
}

pub open spec fn call_models(s: Seq<ToolCall>) -> Seq<CallModel> {
    Seq::new(s.len(), |i: int| s[i]@)
}

/// The calls of tools in a content, in order.
pub open spec fn tool_calls(content: Seq<ContentModel>) -> Seq<CallModel>
    decreases content.len(),
{
    if content.len() == 0 {
        Seq::empty()
    } else {
        let before = tool_calls(content.drop_last());
        match content.last() {
            ContentModel::ToolUse(id, name, input) => before.push(CallModel { id, name, input }),
            _ => before,
        }
    }
}

pub fn collect_tool_calls(content: &[ContentBlock]) -> (r: Vec<ToolCall>)
    ensures
        call_models(r@) == tool_calls(messages::content_models(content@)),
{
    let mut calls: Vec<ToolCall> = Vec::new();
    let n: usize = content.len();
    let ghost all = messages::content_models(content@);
    assert(call_models(calls@) == tool_calls(all.take(0)));
    for i in 0..n
        invariant
            n == content@.len(),
            all == messages::content_models(content@),
            call_models(calls@) == tool_calls(all.take(i as int)),
    {
        assert(all.take(i + 1).drop_last() == all.take(i as int));
        assert(all.take(i + 1).last() == content@[i as int]@);
        match &content[i] {
            ContentBlock::ToolUse { id, name, input } => {
                let call = ToolCall { id: id.clone(), name: name.clone(), input: input.clone() };
                let ghost made = call_models(calls@);
                let ghost said = call@;
                calls.push(call);
                assert(call_models(calls@) == made.push(said));
            },
            _ => {},
        }
    }
    assert(all.take(n as int) == all);
    calls
}

pub open spec fn calls_tool(calls: Seq<CallModel>, name: Seq<char>) -> bool {
    exists|i: int| 0 <= i < calls.len() && (#[trigger] calls[i]).name == name
}

fn has_call_of(calls: &Vec<ToolCall>, name: &str) -> (r: bool)
    ensures
        r == calls_tool(call_models(calls@), name@),
{
    let n: usize = calls.len();
    let ghost all = call_models(calls@);
    for i in 0..n
        invariant
            n == calls@.len(),
            all == call_models(calls@),
            forall|k: int| 0 <= k < i ==> (#[trigger] all[k]).name != name@,
    {
        if text::same_text(calls[i].name.as_str(), name) {
            assert(all[i as int].name == name@);
            return true;
        }
        assert(all[i as int] == calls@[i as int]@);
    }
    false
}

// Which tools are offered

/// A tool is offered where there is no list, or its name starts with an entry.
pub open spec fn offered(name: Seq<char>, allow: Option<Seq<Seq<char>>>) -> bool {
    match allow {
        None => true,
        Some(list) => starts_with_any(name, list),
    }
}

pub open spec fn starts_with_any(name: Seq<char>, list: Seq<Seq<char>>) -> bool {
    exists|i: int| 0 <= i < list.len() && text::starts_with(name, #[trigger] list[i])
}

pub open spec fn list_views(allow: Option<&[String]>) -> Option<Seq<Seq<char>>> {
    match allow {
        Some(list) => Some(text::views(list@)),
        None => None,
    }
}

pub fn tool_is_offered(name: &str, allow: Option<&[String]>) -> (r: bool)
    ensures
        r == offered(name@, list_views(allow)),
{
    match allow {
        None => true,
        Some(list) => {
            let n: usize = list.len();
            let ghost all = text::views(list@);
            for i in 0..n
                invariant
                    n == list@.len(),
                    all == text::views(list@),
                    list_views(allow) == Some(all),
                    forall|k: int| 0 <= k < i ==> !text::starts_with(name@, #[trigger] all[k]),
            {
                if text::text_starts_with(name, list[i].as_str()) {
                    assert(text::starts_with(name@, all[i as int]));
                    assert(starts_with_any(name@, all));
                    return true;
                }
                assert(all[i as int] == list@[i as int]@);
            }
            false
        },
    }
}

/// The names of the tools that are offered, in order.
pub fn offered_tools(names: &[String], allow: Option<&[String]>) -> (r: Vec<String>)
    ensures
        r@ == names@.filter(|name: String| offered(name@, list_views(allow))),
{
    let mut out: Vec<String> = Vec::new();
    let n: usize = names.len();
    let ghost keep = |name: String| offered(name@, list_views(allow));
    proof {
        seqs::filter_start(names@, keep);
    }
    for i in 0..n
        invariant
            n == names@.len(),
            keep == (|name: String| offered(name@, list_views(allow))),
            out@ == names@.take(i as int).filter(keep),
    {
        proof {
            seqs::filter_step(names@, keep, i as int);
        }
        if tool_is_offered(names[i].as_str(), allow) {
            out.push(names[i].clone());
        }
    }
    assert(names@.take(n as int) == names@);
    out
}

/// The provider and the model that a model's full name gives, where it names both.
pub fn provider_and_model(full_name: &str) -> (r: Option<(String, String)>)
    ensures
        match r {
            None => text::first_index(full_name@, '/') is None,
            Some((provider, model)) => {
                &&& text::first_index(full_name@, '/') is Some
                &&& provider@ == full_name@.take(text::first_index(full_name@, '/')->0)
                &&& model@ == full_name@.skip(text::first_index(full_name@, '/')->0 + 1)
            },
        },
{
    let chars = text::chars_of(full_name);
    let total: usize = chars.len();
    match text::find_first(chars.as_slice(), '/') {
        None => None,
        Some(at) => {
            let head = vstd::slice::slice_subrange(chars.as_slice(), 0, at);
            let tail = vstd::slice::slice_subrange(chars.as_slice(), at + 1, total);
            assert(tail@ == full_name@.skip(at + 1));
            Some((text::string_of(head), text::string_of(tail)))
        },
    }
}

// The state of the rounds

/// What the rounds have come to.
#[derive(Clone, Copy, Debug, PartialEq, Eq, Structural)]
pub struct LoopState {
    pub max_iterations: usize,
    pub must_use_web_search: bool,
    pub is_scheduled_task: bool,
    /// The rounds that were begun.
    pub iteration: usize,
    pub web_search_reminder_injected: bool,
    pub web_search_called: bool,
    pub scheduled_task_retries: u32,
    pub empty_promise_retries: u32,
    pub total_tool_calls: usize,
    pub successful_tool_calls: usize,
}

/// What is known of the rounds after they ended.
#[derive(Clone, Debug)]
pub struct ToolLoopMeta {
    pub successful_tool_calls: usize,
    pub final_stop_reason: Option<String>,
    pub cancelled: bool,
}

pub open spec fn initial_state(
    max_iterations: usize,
    must_use_web_search: bool,
    is_scheduled_task: bool,
) -> LoopState {
    LoopState {
        max_iterations,
        must_use_web_search,
        is_scheduled_task,
        iteration: 0,
        web_search_reminder_injected: false,
        web_search_called: false,
        scheduled_task_retries: 0,
        empty_promise_retries: 0,
        total_tool_calls: 0,
        successful_tool_calls: 0,
    }
}

impl LoopState {
    pub fn new(
        max_iterations: Option<u32>,
        must_use_web_search: bool,
        is_scheduled_task: bool,
    ) -> (r: Self)
        ensures
            r == initial_state(
                match max_iterations {
                    Some(n) => n as usize,
                    None => DEFAULT_MAX_ITERATIONS,
                },
                must_use_web_search,
                is_scheduled_task,
            ),
    {
        LoopState {
            max_iterations: match max_iterations {
                Some(n) => n as usize,
                None => DEFAULT_MAX_ITERATIONS,
            },
            must_use_web_search,
            is_scheduled_task,
            iteration: 0,
            web_search_reminder_injected: false,
            web_search_called: false,
            scheduled_task_retries: 0,
            empty_promise_retries: 0,
            total_tool_calls: 0,
            successful_tool_calls: 0,
        }
    }

    pub fn meta(&self, stop_reason: Option<String>, cancelled: bool) -> (r: ToolLoopMeta)
        ensures
            r.successful_tool_calls == self.successful_tool_calls,
            r.final_stop_reason == stop_reason,
            r.cancelled == cancelled,
    {
        ToolLoopMeta {
            successful_tool_calls: self.successful_tool_calls,
            final_stop_reason: stop_reason,
            cancelled,
        }
    }
}

/// How a round begins.
#[derive(Clone, Copy, Debug, PartialEq, Eq, Structural)]
pub enum BeginStep {
    /// The user has stopped the task.
    Stopped,
    /// The model is asked, with the tools that are offered.
    AskModel,
    /// The rounds are used up: the model is asked once more, without tools.
    AskWithoutTools,
}

pub open spec fn begin_step(state: LoopState, cancelled: bool) -> BeginStep {
    if cancelled {
        BeginStep::Stopped
    } else if state.iteration < state.max_iterations {
        BeginStep::AskModel
    } else {
        BeginStep::AskWithoutTools
    }
}

/// Begins a round. Before the model is asked, tool calls without results are
/// removed; where the rounds are used up, it is told to come to an end.
pub fn begin_round(state: LoopState, conversation: &mut Vec<LlmMessage>, cancelled: bool) -> (r: (
    LoopState,
    BeginStep,
))
    ensures
        r.1 == begin_step(state, cancelled),
        r.0 == (if r.1 == BeginStep::AskModel {
            LoopState { iteration: (state.iteration + 1) as usize, ..state }
        } else {
            state
        }),
        r.1 == BeginStep::Stopped ==> final(conversation)@ == old(conversation)@,
        r.1 == BeginStep::AskModel ==> final(conversation)@ == messages::repaired(
            old(conversation)@,
        ),
        r.1 == BeginStep::AskWithoutTools ==> messages::message_models(final(conversation)@)
            == messages::message_models(old(conversation)@).push(
            messages::text_message("user"@, EXHAUSTED_NUDGE@),
        ),
{
    if cancelled {
        return (state, BeginStep::Stopped);
    }
    if state.iteration < state.max_iterations {
        messages::repair_tool_pairing(conversation);
        return (LoopState { iteration: state.iteration + 1, ..state }, BeginStep::AskModel);
    }
    let nudge = LlmMessage::user(EXHAUSTED_NUDGE.to_owned());
    proof {
        messages::message_models_push(conversation@, nudge);
    }
    conversation.push(nudge);
    (state, BeginStep::AskWithoutTools)
}

// Replies

/// What follows a reply.
#[derive(Clone, Copy, Debug, PartialEq, Eq, Structural)]
pub enum ResponseStep {
    /// The tools that it calls are run.
    RunTools,
    /// It is sent back.
    Retry(Nudge),
    /// A model is asked whether it promises content without giving it.
    Classify,
    /// It is the answer.
    Finish,
}

pub open spec fn saturating_usize(n: int) -> usize {
    if n > usize::MAX {
        usize::MAX
    } else {
        n as usize
    }
}

/// What of a reply decides on the next step: its text, that text in lower case,
/// the tool calls among its content, and why it ended.
pub struct ResponseModel {
    pub said: Seq<char>,
    pub lower: Seq<char>,
    pub calls: Seq<CallModel>,
    pub stop_reason: Option<Seq<char>>,
}

/// The reply calls tools and waits for them.
pub open spec fn waits_for_tools(resp: ResponseModel) -> bool {
    resp.calls.len() > 0 && resp.stop_reason == Some("tool_use"@)
}

/// The reply was cut short before it called a tool.
pub open spec fn cut_short(resp: ResponseModel) -> bool {
    resp.calls.len() == 0 && resp.stop_reason == Some("length"@)
}

pub open spec fn response_step(state: LoopState, resp: ResponseModel) -> ResponseStep {
    let count = resp.calls.len() as int;
    let retries = state.scheduled_task_retries as int;
    let total = state.total_tool_calls as int;
    if waits_for_tools(resp) {
        ResponseStep::RunTools
    } else if predicates::wants_web_search_reminder(
        state.must_use_web_search,
        state.web_search_reminder_injected,
        state.web_search_called,
        count,
    ) {
        ResponseStep::Retry(Nudge::WebSearch)
    } else if predicates::fabricated_reply(
        state.is_scheduled_task,
        retries,
        total,
        count,
        resp.lower,
    ) {
        ResponseStep::Retry(Nudge::Fabricated)
    } else if cut_short(resp) && retries < predicates::MAX_REPLY_RETRIES {
        ResponseStep::Retry(Nudge::Truncated)
    } else if count == 0 && predicates::incomplete_reply(
        state.is_scheduled_task,
        retries,
        total,
        resp.said,
        resp.lower,
    ) {
        ResponseStep::Retry(Nudge::Incomplete)
    } else {
        match predicates::promise_verdict(state.empty_promise_retries as int, count, resp.said) {
            EmptyPromiseVerdict::Evident => ResponseStep::Retry(Nudge::EmptyPromise),
            EmptyPromiseVerdict::Inconclusive => ResponseStep::Classify,
            EmptyPromiseVerdict::No => ResponseStep::Finish,
        }
    }
}

/// The state after a step.
pub open spec fn state_after(state: LoopState, resp: ResponseModel, step: ResponseStep) -> LoopState {
    match step {
        ResponseStep::RunTools => LoopState {
            total_tool_calls: saturating_usize(state.total_tool_calls + resp.calls.len()),
            web_search_called: state.web_search_called || calls_tool(
                resp.calls,
                "web_search"@,
            ),
            web_search_reminder_injected: false,
            ..state
        },
        ResponseStep::Retry(Nudge::WebSearch) => LoopState {
            web_search_reminder_injected: true,
            ..state
        },
        ResponseStep::Retry(Nudge::EmptyPromise) => LoopState {
            empty_promise_retries: (state.empty_promise_retries + 1) as u32,
            ..state
        },
        ResponseStep::Retry(_) => LoopState {
            scheduled_task_retries: (state.scheduled_task_retries + 1) as u32,
            ..state
        },
        ResponseStep::Classify => state,
        ResponseStep::Finish => state,
    }
}

/// What is added to the conversation by a step: the reply, and what the model
/// is told where it is sent back.
pub open spec fn said_after(
    state: LoopState,
    content: Seq<ContentModel>,
    step: ResponseStep,
) -> Seq<MessageModel> {
    let reply = MessageModel { role: "assistant"@, content };
    match step {
        ResponseStep::RunTools => seq![reply],
        ResponseStep::Retry(nudge) => seq![
            reply,
            messages::text_message("user"@, nudge.message(state.is_scheduled_task)),
        ],
        ResponseStep::Classify => Seq::empty(),
        ResponseStep::Finish => Seq::empty(),
    }
}

pub open spec fn response_model(response: LlmResponse, lower: Seq<char>) -> ResponseModel {
    ResponseModel {
        said: response.text@,
        lower,
        calls: tool_calls(messages::content_models(response.content@)),
        stop_reason: text::opt_view(response.stop_reason),
    }
}

/// No reply is sent back more often than allowed.
pub open spec fn retries_bounded(state: LoopState) -> bool {
    state.scheduled_task_retries <= predicates::MAX_REPLY_RETRIES && state.empty_promise_retries
        <= predicates::MAX_REPLY_RETRIES
}

pub fn copy_block(block: &ContentBlock) -> (r: ContentBlock)
    ensures
        r == *block,
{
    match block {
        ContentBlock::Text { text } => ContentBlock::Text { text: text.clone() },
        ContentBlock::Image { data, media_type } => ContentBlock::Image {
            data: data.clone(),
            media_type: media_type.clone(),
        },
        ContentBlock::ToolUse { id, name, input } => ContentBlock::ToolUse {
            id: id.clone(),
            name: name.clone(),
            input: input.clone(),
        },
        ContentBlock::ToolResult { tool_use_id, content, is_error } => ContentBlock::ToolResult {
            tool_use_id: tool_use_id.clone(),
            content: content.clone(),
            is_error: *is_error,
        },
    }
}

fn copy_content(content: &Vec<ContentBlock>) -> (r: Vec<ContentBlock>)
    ensures
        r@ == content@,
{
    let mut out: Vec<ContentBlock> = Vec::new();
    let n: usize = content.len();
    for i in 0..n
        invariant
            n == content@.len(),
            out@ == content@.take(i as int),
    {
        out.push(copy_block(&content[i]));
        assert(content@.take(i + 1) == content@.take(i as int).push(content@[i as int]));
    }
    assert(content@.take(n as int) == content@);
    out
}

fn reason_is(reason: &Option<String>, expected: &str) -> (r: bool)
    ensures
        r == (text::opt_view(*reason) == Some(expected@)),
{
    match reason {
        Some(reason) => text::same_text(reason.as_str(), expected),
        None => false,
    }
}

fn decide(state: LoopState, response: &LlmResponse, calls: &Vec<ToolCall>, lower: &str) -> (r:
    ResponseStep)
    requires
        call_models(calls@) == tool_calls(messages::content_models(response.content@)),
    ensures
        r == response_step(state, response_model(*response, lower@)),
{
    let count: usize = calls.len();
    let ghost resp = response_model(*response, lower@);
    assert(resp.calls.len() == count);
    if count > 0 && reason_is(&response.stop_reason, "tool_use") {
        return ResponseStep::RunTools;
    }
    if predicates::should_inject_web_search_reminder(
        state.must_use_web_search,
        state.web_search_reminder_injected,
        state.web_search_called,
        count,
    ) {
        return ResponseStep::Retry(Nudge::WebSearch);
    }
    if predicates::lowered_is_fabricated(
        state.is_scheduled_task,
        state.scheduled_task_retries,
        state.total_tool_calls,
        count,
        lower,
    ) {
        return ResponseStep::Retry(Nudge::Fabricated);
    }
    if count == 0 && reason_is(&response.stop_reason, "length") && state.scheduled_task_retries
        < predicates::MAX_REPLY_RETRIES {
        return ResponseStep::Retry(Nudge::Truncated);
    }
    if count == 0 && predicates::lowered_is_incomplete(
        state.is_scheduled_task,
        state.scheduled_task_retries,
        state.total_tool_calls,
        response.text.as_str(),
        lower,
    ) {
        return ResponseStep::Retry(Nudge::Incomplete);
    }
    match predicates::detect_empty_promise_structural(
        state.empty_promise_retries,
        count,
        response.text.as_str(),
    ) {
        EmptyPromiseVerdict::Evident => ResponseStep::Retry(Nudge::EmptyPromise),
        EmptyPromiseVerdict::Inconclusive => ResponseStep::Classify,
        EmptyPromiseVerdict::No => ResponseStep::Finish,
    }
}

/// Adds to the conversation what a step adds.
fn say(
    state: LoopState,
    conversation: &mut Vec<LlmMessage>,
    response: &LlmResponse,
    step: ResponseStep,
)
    ensures
        messages::message_models(final(conversation)@) == messages::message_models(
            old(conversation)@,
        ) + said_after(state, messages::content_models(response.content@), step),
{
    let ghost before = messages::message_models(conversation@);
    let ghost content = messages::content_models(response.content@);
    match step {
        ResponseStep::RunTools => {
            let reply = LlmMessage {
                role: "assistant".to_owned(),
                content: copy_content(&response.content),
            };
            proof {
                messages::message_models_push(conversation@, reply);
            }
            conversation.push(reply);
            assert(messages::message_models(conversation@) =~= before + said_after(
                state,
                content,
                step,
            ));
        },
        ResponseStep::Retry(nudge) => {
            let reply = LlmMessage {
                role: "assistant".to_owned(),
                content: copy_content(&response.content),
            };
            proof {
                messages::message_models_push(conversation@, reply);
            }
            conversation.push(reply);
            let told = LlmMessage::user(nudge.text(state.is_scheduled_task).to_owned());
            proof {
                messages::message_models_push(conversation@, told);
            }
            conversation.push(told);
            assert(messages::message_models(conversation@) =~= before + said_after(
                state,
                content,
                step,
            ));
        },
        ResponseStep::Classify => {
            assert(before =~= before + said_after(state, content, step));
        },
        ResponseStep::Finish => {
            assert(before =~= before + said_after(state, content, step));
        },
    }
}

fn advance(state: LoopState, calls: &Vec<ToolCall>, step: ResponseStep) -> (r: LoopState)
    requires
        step is Retry ==> state.scheduled_task_retries < u32::MAX && state.empty_promise_retries
            < u32::MAX,
    ensures
        forall|resp: ResponseModel|
            resp.calls == call_models(calls@) ==> r == #[trigger] state_after(state, resp, step),
{
    match step {
        ResponseStep::RunTools => LoopState {
            total_tool_calls: state.total_tool_calls.saturating_add(calls.len()),
            web_search_called: state.web_search_called || has_call_of(calls, "web_search"),
            web_search_reminder_injected: false,
            ..state
        },
        ResponseStep::Retry(Nudge::WebSearch) => LoopState {
            web_search_reminder_injected: true,
            ..state
        },
        ResponseStep::Retry(Nudge::EmptyPromise) => LoopState {
            empty_promise_retries: state.empty_promise_retries + 1,
            ..state
        },
        ResponseStep::Retry(_) => LoopState {
            scheduled_task_retries: state.scheduled_task_retries + 1,
            ..state
        },
        ResponseStep::Classify => state,
        ResponseStep::Finish => state,
    }
}

/// Sending a reply back keeps within what is allowed.
pub proof fn retries_stay_bounded(state: LoopState, resp: ResponseModel)
    requires
        retries_bounded(state),
    ensures
        retries_bounded(state_after(state, resp, response_step(state, resp))),
{
}

/// Takes a reply, whose text is `lower` in lower case: says what follows, and
/// adds to the conversation what belongs there.
pub fn take_lowered_response(
    state: LoopState,
    conversation: &mut Vec<LlmMessage>,
    response: &LlmResponse,
    lower: &str,
) -> (r: (LoopState, ResponseStep))
    requires
        retries_bounded(state),
    ensures
        r.1 == response_step(state, response_model(*response, lower@)),
        r.0 == state_after(state, response_model(*response, lower@), r.1),
        messages::message_models(final(conversation)@) == messages::message_models(
            old(conversation)@,
        ) + said_after(state, messages::content_models(response.content@), r.1),
        retries_bounded(r.0),
{
    let calls = collect_tool_calls(response.content.as_slice());
    let step = decide(state, response, &calls, lower);
    say(state, conversation, response, step);
    proof {
        retries_stay_bounded(state, response_model(*response, lower@));
    }
    (advance(state, &calls, step), step)
}

/// Takes a reply.
pub fn take_response(
    state: LoopState,
    conversation: &mut Vec<LlmMessage>,
    response: &LlmResponse,
) -> (r: (LoopState, ResponseStep))
    requires
        retries_bounded(state),
    ensures
        r.1 == response_step(state, response_model(*response, text::lowercase(response.text@))),
        r.0 == state_after(
            state,
            response_model(*response, text::lowercase(response.text@)),
            r.1,
        ),
        messages::message_models(final(conversation)@) == messages::message_models(
            old(conversation)@,
        ) + said_after(state, messages::content_models(response.content@), r.1),
        retries_bounded(r.0),
{
    let lower = text::to_lowercase(response.text.as_str());
    take_lowered_response(state, conversation, response, lower.as_str())
}

/// What follows a reply that was classified: a promise is sent back, as long as
/// that is allowed.
pub open spec fn classified_step(is_promise: bool) -> ResponseStep {
    if is_promise {
        ResponseStep::Retry(Nudge::EmptyPromise)
    } else {
        ResponseStep::Finish
    }
}

/// Takes the answer whether a reply promises content without giving it.
pub fn take_classification(
    state: LoopState,
    conversation: &mut Vec<LlmMessage>,
    response: &LlmResponse,
    is_promise: bool,
) -> (r: (LoopState, ResponseStep))
    requires
        retries_bounded(state),
        state.empty_promise_retries < predicates::MAX_REPLY_RETRIES,
    ensures
        r.1 == classified_step(is_promise),
        r.0 == (if is_promise {
            LoopState {
                empty_promise_retries: (state.empty_promise_retries + 1) as u32,
                ..state
            }
        } else {
            state
        }),
        messages::message_models(final(conversation)@) == messages::message_models(
            old(conversation)@,
        ) + said_after(state, messages::content_models(response.content@), r.1),
        retries_bounded(r.0),
{
    let step = if is_promise {
        ResponseStep::Retry(Nudge::EmptyPromise)
    } else {
        ResponseStep::Finish
    };
    say(state, conversation, response, step);
    let after = if is_promise {
        LoopState { empty_promise_retries: state.empty_promise_retries + 1, ..state }
    } else {
        state
    };
    (after, step)
}

// Results of tools

/// The result of a tool that failed.
pub fn failed_tool_result(tool_use_id: &str, error: &str) -> (r: ContentBlock)
    ensures
        r@ == ContentModel::ToolResult(tool_use_id@, "Tool execution error: "@ + error@, true),
{
    let mut content = "Tool execution error: ".to_owned();
    content.append(error);
    ContentBlock::ToolResult { tool_use_id: tool_use_id.to_owned(), content, is_error: true }
}

/// The number of results without an error.
pub open spec fn success_count(results: Seq<ContentModel>) -> int
    decreases results.len(),
{
    if results.len() == 0 {
        0
    } else {
        success_count(results.drop_last()) + if results.last() matches ContentModel::ToolResult(
            _,
            _,
            is_error,
        ) && !is_error {
            1int
        } else {
            0int
        }
    }
}

fn count_successes(results: &Vec<ContentBlock>) -> (r: usize)
    ensures
        r == success_count(messages::content_models(results@)),
{
    let mut count: usize = 0;
    let n: usize = results.len();
    let ghost all = messages::content_models(results@);
    for i in 0..n
        invariant
            n == results@.len(),
            all == messages::content_models(results@),
            count <= i,
            count == success_count(all.take(i as int)),
    {
        assert(all.take(i + 1).drop_last() == all.take(i as int));
        assert(all.take(i + 1).last() == results@[i as int]@);
        match &results[i] {
            ContentBlock::ToolResult { is_error, .. } => {
                if !*is_error {
                    count = count + 1;
                }
            },
            _ => {},
        }
    }
    assert(all.take(n as int) == all);
    count
}

/// What the model is told of the rounds that are left, once they are few.
pub open spec fn remaining_notice(state: LoopState) -> Option<Seq<char>> {
    let remaining = state.max_iterations - state.iteration;
    if 0 < remaining <= state.max_iterations / 5 {
        Some(
            "[SYSTEM: You have "@ + text::decimal(remaining as nat)
                + " tool call(s) remaining. Finish the current task now — do not start new exploratory work.]"@,
        )
    } else {
        None
    }
}

fn notice_remaining(state: LoopState) -> (r: Option<String>)
    ensures
        text::opt_view(r) == remaining_notice(state),
{
    if state.iteration >= state.max_iterations {
        return None;
    }
    let remaining: usize = state.max_iterations - state.iteration;
    if remaining > state.max_iterations / 5 {
        return None;
    }
    let mut out = "[SYSTEM: You have ".to_owned();
    out.append(text::decimal_of(remaining as u128).as_str());
    out.append(
        " tool call(s) remaining. Finish the current task now — do not start new exploratory work.]",
    );
    Some(out)
}

/// What the results of a round add to the conversation.
pub open spec fn results_said(state: LoopState, results: Seq<ContentModel>) -> Seq<MessageModel> {
    let told = MessageModel { role: "user"@, content: results };
    match remaining_notice(state) {
        None => seq![told],
        Some(notice) => seq![told, messages::text_message("user"@, notice)],
    }
}

/// Takes the results of the tools that a reply called.
pub fn take_tool_results(
    state: LoopState,
    conversation: &mut Vec<LlmMessage>,
    results: Vec<ContentBlock>,
) -> (r: LoopState)
    ensures
        r == (LoopState {
            successful_tool_calls: saturating_usize(
                state.successful_tool_calls + success_count(messages::content_models(results@)),
            ),
            ..state
        }),
        messages::message_models(final(conversation)@) == messages::message_models(
            old(conversation)@,
        ) + results_said(state, messages::content_models(results@)),
{
    let ghost before = messages::message_models(conversation@);
    let ghost content = messages::content_models(results@);
    let successes: usize = count_successes(&results);
    let told = LlmMessage { role: "user".to_owned(), content: results };
    proof {
        messages::message_models_push(conversation@, told);
    }
    conversation.push(told);
    match notice_remaining(state) {
        None => {},
        Some(notice) => {
            let more = LlmMessage::user(notice);
            proof {
                messages::message_models_push(conversation@, more);
            }
            conversation.push(more);
        },
    }
    assert(messages::message_models(conversation@) =~= before + results_said(state, content));
    LoopState {
        successful_tool_calls: state.successful_tool_calls.saturating_add(successes),
        ..state
    }
}

// The last answer

/// The first result in a content that is neither an error nor blank.
pub open spec fn first_usable_result(content: Seq<ContentModel>) -> Option<Seq<char>>
    decreases content.len(),
{
    if content.len() == 0 {
        None
    } else {
        match content[0] {
            ContentModel::ToolResult(_, said, is_error) => if !is_error && text::trim(said).len()
                > 0 {
                Some(said)
            } else {
                first_usable_result(content.skip(1))
            },
            _ => first_usable_result(content.skip(1)),
        }
    }
}

/// The first such result in the last message that has one.
pub open spec fn last_usable_result(conversation: Seq<MessageModel>) -> Option<Seq<char>>
    decreases conversation.len(),
{
    if conversation.len() == 0 {
        None
    } else {
        match first_usable_result(conversation.last().content) {
            Some(said) => Some(said),
            None => last_usable_result(conversation.drop_last()),
        }
    }
}

fn find_usable_result(content: &Vec<ContentBlock>) -> (r: Option<String>)
    ensures
        text::opt_view(r) == first_usable_result(messages::content_models(content@)),
{
    let n: usize = content.len();
    let ghost all = messages::content_models(content@);
    assert(all.skip(0) == all);
    for i in 0..n
        invariant
            n == content@.len(),
            all == messages::content_models(content@),
            first_usable_result(all) == first_usable_result(all.skip(i as int)),
    {
        assert(all.skip(i as int)[0] == content@[i as int]@);
        assert(all.skip(i as int).skip(1) == all.skip(i + 1));
        match &content[i] {
            ContentBlock::ToolResult { content: said, is_error, .. } => {
                if !*is_error && !text::trimmed(said.as_str()).as_str().is_empty() {
                    return Some(said.clone());
                }
            },
            _ => {},
        }
    }
    None
}

/// The answer after the rounds were used up: what the model says, and where that
/// is blank, the last result of a tool that says something.
pub fn last_answer(conversation: &[LlmMessage], response_text: &str) -> (r: String)
    ensures
        r@ == (if text::trim(response_text@).len() > 0 {
            response_text@
        } else {
            match last_usable_result(messages::message_models(conversation@)) {
                Some(said) => said,
                None => response_text@,
            }
        }),
{
    if !text::trimmed(response_text).as_str().is_empty() {
        return response_text.to_owned();
    }
    let mut j: usize = conversation.len();
    let ghost all = messages::message_models(conversation@);
    assert(all.take(j as int) == all);
    while j > 0
        invariant
            j <= conversation@.len(),
            all == messages::message_models(conversation@),
            text::trim(response_text@).len() == 0,
            last_usable_result(all) == last_usable_result(all.take(j as int)),
        decreases j,
    {
        assert(all.take(j as int).last() == conversation@[j - 1]@);
        assert(all.take(j as int).drop_last() == all.take(j - 1));
        match find_usable_result(&conversation[j - 1].content) {
            Some(said) => {
                return said;
            },
            None => {},
        }
        j = j - 1;
    }
    response_text.to_owned()
}

// What holds of the rounds

/// A reply is sent back, or asked about, only where it calls no tool; so no call
/// is left without its result.
pub proof fn only_plain_replies_are_sent_back(state: LoopState, resp: ResponseModel)
    ensures
        response_step(state, resp) is Retry || response_step(state, resp) is Classify
            ==> resp.calls.len() == 0,
{
}

/// A reminder of the web search is not repeated before a tool has been called.
pub proof fn reminder_is_given_once(state: LoopState, resp: ResponseModel, next: ResponseModel)
    requires
        response_step(state, resp) == ResponseStep::Retry(Nudge::WebSearch),
    ensures
        response_step(state_after(state, resp, response_step(state, resp)), next)
            != ResponseStep::Retry(Nudge::WebSearch),
{
}

/// After a web search no reminder of it is given.
pub proof fn no_reminder_after_search(state: LoopState, resp: ResponseModel)
    requires
        state.web_search_called,
    ensures
        response_step(state, resp) != ResponseStep::Retry(Nudge::WebSearch),
        state_after(state, resp, response_step(state, resp)).web_search_called,
{
}

/// What a reply can still bring about by being sent back.
pub open spec fn retries_left(state: LoopState) -> int {
    (predicates::MAX_REPLY_RETRIES - state.scheduled_task_retries) + (predicates::MAX_REPLY_RETRIES
        - state.empty_promise_retries) + if state.web_search_reminder_injected {
        0int
    } else {
        1int
    }
}

/// Every reply that is sent back uses up one of the few times that this may
/// happen before a tool is called: the rounds without tools come to an end.
pub proof fn sending_back_comes_to_an_end(state: LoopState, resp: ResponseModel)
    requires
        retries_bounded(state),
        response_step(state, resp) is Retry,
    ensures
        retries_left(state) > 0,
        retries_left(state_after(state, resp, response_step(state, resp))) < retries_left(state),
        retries_left(state_after(state, resp, response_step(state, resp))) >= 0,
{
}

/// A classified promise uses up one of those times too.
pub proof fn promises_use_up_retries(state: LoopState, resp: ResponseModel)
    requires
        retries_bounded(state),
        response_step(state, resp) is Classify,
    ensures
        state.empty_promise_retries < predicates::MAX_REPLY_RETRIES,
        state_after(state, resp, response_step(state, resp)) == state,
{
}

/// The model is asked with tools no more often than allowed: a round that begins
/// so counts, and when all have been used none does.
pub proof fn rounds_are_limited(state: LoopState, cancelled: bool)
    ensures
        begin_step(state, cancelled) == BeginStep::AskModel ==> state.iteration
            < state.max_iterations,
        state.iteration >= state.max_iterations ==> begin_step(state, cancelled)
            != BeginStep::AskModel,
{
}

proof fn last_assistant_before(conversation: Seq<LlmMessage>, i: int)
    requires
        0 <= i < conversation.len(),
        messages::is_assistant(conversation[i]),
        forall|k: int|
            i < k < conversation.len() ==> !messages::is_assistant(#[trigger] conversation[k]),
    ensures
        messages::last_assistant(conversation) == Some(i),
    decreases conversation.len(),
{
    if i < conversation.len() - 1 {
        assert(!messages::is_assistant(conversation[conversation.len() - 1]));
        last_assistant_before(conversation.drop_last(), i);
    }
}

/// A round whose results answer every call leaves nothing to repair, with or
/// without a notice behind the results.
pub proof fn answered_rounds_stay(
    conversation: Seq<LlmMessage>,
    reply: LlmMessage,
    results: LlmMessage,
    notice: LlmMessage,
)
    requires
        messages::is_assistant(reply),
        results.role@ == "user"@,
        notice.role@ == "user"@,
        forall|id: Seq<char>| #[trigger]
            messages::uses_tool(reply, id) ==> messages::answers_tool(results, id),
    ensures
        messages::repaired(conversation.push(reply).push(results)) == conversation.push(
            reply,
        ).push(results),
        messages::repaired(conversation.push(reply).push(results).push(notice))
            == conversation.push(reply).push(results).push(notice),
{
    reveal_strlit("user");
    reveal_strlit("assistant");
    assert("user"@.len() != "assistant"@.len());
    let i = conversation.len() as int;
    let short = conversation.push(reply).push(results);
    let long = short.push(notice);
    last_assistant_before(short, i);
    last_assistant_before(long, i);
    assert(short[i] == reply && short[i + 1] == results);
    assert(long[i] == reply && long[i + 1] == results);
    assert(messages::paired_at(short, i));
    assert(messages::paired_at(long, i));
}

// What stands in the conversation

/// The calls of two contents are those of the one and then those of the other; a
/// tool use is one call with its identifier, name and input, and nothing else is
/// a call.
pub proof fn calls_are_the_tool_uses(a: Seq<ContentModel>, b: Seq<ContentModel>)
    ensures
        tool_calls(a + b) == tool_calls(a) + tool_calls(b),
        a.len() == 1 ==> tool_calls(a) == (match a[0] {
            ContentModel::ToolUse(id, name, input) => seq![CallModel { id, name, input }],
            _ => Seq::empty(),
        }),
    decreases b.len(),
{
    if b.len() == 0 {
        assert(a + b =~= a);
    } else {
        calls_are_the_tool_uses(a, b.drop_last());
        assert((a + b).drop_last() =~= a + b.drop_last());
        assert((a + b).last() == b.last());
        assert(tool_calls(a + b) =~= tool_calls(a) + tool_calls(b));
    }
    if a.len() == 1 {
        assert(a.drop_last() =~= Seq::<ContentModel>::empty());
        assert(tool_calls(a.drop_last()) == Seq::<CallModel>::empty());
    }
}

/// A content makes a call exactly where it holds a tool use of that identifier,
/// name and input.
pub proof fn every_tool_use_is_a_call(content: Seq<ContentModel>, call: CallModel)
    ensures
        tool_calls(content).contains(call) <==> content.contains(
            ContentModel::ToolUse(call.id, call.name, call.input),
        ),
    decreases content.len(),
{
    let block = ContentModel::ToolUse(call.id, call.name, call.input);
    if content.len() > 0 {
        let less = content.drop_last();
        every_tool_use_is_a_call(less, call);
        let before = tool_calls(less);
        let all = tool_calls(content);
        if less.contains(block) {
            let i = choose|i: int| 0 <= i < less.len() && less[i] == block;
            assert(content[i] == block);
            let k = choose|k: int| 0 <= k < before.len() && before[k] == call;
            assert(all[k] == call);
        } else if content.last() == block {
            assert(content[content.len() - 1] == block);
            assert(all[before.len() as int] == call);
        } else {
            if content.contains(block) {
                let i = choose|i: int| 0 <= i < content.len() && content[i] == block;
                assert(less[i] == block);
            }
            if all.contains(call) {
                let k = choose|k: int| 0 <= k < all.len() && all[k] == call;
                if k < before.len() {
                    assert(before[k] == call);
                    assert(before.contains(call));
                }
            }
        }
    } else {
        assert(!tool_calls(content).contains(call));
    }
}

proof fn modelled_call_is_used(m: LlmMessage, call: CallModel)
    requires
        tool_calls(messages::content_models(m.content@)).contains(call),
    ensures
        messages::uses_tool(m, call.id),
{
    let content = messages::content_models(m.content@);
    every_tool_use_is_a_call(content, call);
    let block = ContentModel::ToolUse(call.id, call.name, call.input);
    let i = choose|i: int| 0 <= i < content.len() && content[i] == block;
    assert(m.content@[i]@ == block);
    assert(m.content@[i] is ToolUse);
}

/// Where a reply calls tools that are to be run, the conversation goes on with
/// that reply: one message of the assistant with exactly the content of the
/// reply, behind what was said before. So every call that is run has its tool use
/// in the last message.
pub proof fn a_reply_stands_before_its_results(
    state: LoopState,
    response: LlmResponse,
    lower: Seq<char>,
    before: Seq<LlmMessage>,
    after: Seq<LlmMessage>,
)
    requires
        response_step(state, response_model(response, lower)) == ResponseStep::RunTools,
        messages::message_models(after) == messages::message_models(before) + said_after(
            state,
            messages::content_models(response.content@),
            ResponseStep::RunTools,
        ),
    ensures
        after.len() == before.len() + 1,
        forall|i: int| 0 <= i < before.len() ==> (#[trigger] after[i])@ == before[i]@,
        after.last().role@ == "assistant"@,
        after.last().content@.len() == response.content@.len(),
        forall|j: int|
            0 <= j < response.content@.len() ==> (#[trigger] after.last().content@[j])@
                == response.content@[j]@,
        forall|k: int|
            0 <= k < tool_calls(messages::content_models(response.content@)).len()
                ==> messages::uses_tool(
                after.last(),
                (#[trigger] tool_calls(messages::content_models(response.content@))[k]).id,
            ),
        exists|j: int|
            0 <= j < response.content@.len() && (#[trigger] response.content@[j]) is ToolUse,
{
    let b = messages::message_models(before);
    let a = messages::message_models(after);
    let content = messages::content_models(response.content@);
    assert(a.len() == after.len() && b.len() == before.len());
    assert forall|i: int| 0 <= i < before.len() implies (#[trigger] after[i])@ == before[i]@ by {
        assert(a[i] == b[i]);
    }
    let last = after.last();
    assert(last@ == a[b.len() as int]);
    assert(messages::content_models(last.content@) == content);
    assert(messages::content_models(last.content@).len() == last.content@.len());
    assert(content.len() == response.content@.len());
    assert forall|j: int| 0 <= j < response.content@.len() implies (
    #[trigger] last.content@[j])@ == response.content@[j]@ by {
        assert(messages::content_models(last.content@)[j] == content[j]);
    }
    let calls = tool_calls(content);
    assert forall|k: int| 0 <= k < calls.len() implies messages::uses_tool(
        last,
        (#[trigger] calls[k]).id,
    ) by {
        assert(calls.contains(calls[k]));
        modelled_call_is_used(last, calls[k]);
    }
    let call = calls[0];
    assert(calls.contains(call));
    every_tool_use_is_a_call(content, call);
    let block = ContentModel::ToolUse(call.id, call.name, call.input);
    let j = choose|j: int| 0 <= j < content.len() && content[j] == block;
    assert(response.content@[j] is ToolUse);
}

/// Results go to the model as they came: in one message of the user, directly
/// behind what was said before; what may follow is one more message of the user.
pub proof fn results_are_told_as_they_came(
    state: LoopState,
    results: Seq<ContentBlock>,
    before: Seq<LlmMessage>,
    after: Seq<LlmMessage>,
)
    requires
        messages::message_models(after) == messages::message_models(before) + results_said(
            state,
            messages::content_models(results),
        ),
    ensures
        before.len() < after.len() <= before.len() + 2,
        forall|i: int| 0 <= i < before.len() ==> (#[trigger] after[i])@ == before[i]@,
        forall|i: int|
            before.len() <= i < after.len() ==> (#[trigger] after[i]).role@ == "user"@,
        after[before.len() as int].content@.len() == results.len(),
        forall|j: int|
            0 <= j < results.len() ==> (#[trigger] after[before.len() as int].content@[j])@
                == results[j]@,
{
    let b = messages::message_models(before);
    let a = messages::message_models(after);
    let content = messages::content_models(results);
    assert(a.len() == after.len() && b.len() == before.len());
    assert forall|i: int| 0 <= i < before.len() implies (#[trigger] after[i])@ == before[i]@ by {
        assert(a[i] == b[i]);
    }
    let told = after[b.len() as int];
    assert(told@ == a[b.len() as int]);
    assert(messages::content_models(told.content@) == content);
    assert(messages::content_models(told.content@).len() == told.content@.len());
    assert(content.len() == results.len());
    assert forall|j: int| 0 <= j < results.len() implies (
    #[trigger] told.content@[j])@ == results[j]@ by {
        assert(messages::content_models(told.content@)[j] == content[j]);
    }
    assert forall|i: int| before.len() <= i < after.len() implies (#[trigger] after[i]).role@
        == "user"@ by {
        assert(a[i] == after[i]@);
    }
}

/// A round keeps calls and results together: where the results of the calls that
/// a reply makes are taken, each result answers a call in the message before it,
/// each call has its result behind it, and nothing is left to repair.
pub proof fn a_round_pairs_calls_and_results(
    state: LoopState,
    later: LoopState,
    response: LlmResponse,
    lower: Seq<char>,
    results: Seq<ContentBlock>,
    before: Seq<LlmMessage>,
    asked: Seq<LlmMessage>,
    after: Seq<LlmMessage>,
)
    requires
        response_step(state, response_model(response, lower)) == ResponseStep::RunTools,
        messages::message_models(asked) == messages::message_models(before) + said_after(
            state,
            messages::content_models(response.content@),
            ResponseStep::RunTools,
        ),
        messages::message_models(after) == messages::message_models(asked) + results_said(
            later,
            messages::content_models(results),
        ),
        results.len() == tool_calls(messages::content_models(response.content@)).len(),
        forall|k: int|
            0 <= k < results.len() ==> ((#[trigger] results[k]) matches ContentBlock::ToolResult {
                tool_use_id,
                ..
            } && tool_use_id@ == tool_calls(messages::content_models(response.content@))[k].id),
    ensures
        after.len() > before.len() + 1,
        messages::is_assistant(after[before.len() as int]),
        forall|k: int|
            0 <= k < results.len() ==> ((
            #[trigger] after[(before.len() + 1) as int].content@[k]) matches ContentBlock::ToolResult {
                tool_use_id,
                ..
            } && messages::uses_tool(after[before.len() as int], tool_use_id@)),
        forall|id: Seq<char>| #[trigger]
            messages::uses_tool(after[before.len() as int], id) ==> messages::answers_tool(
                after[(before.len() + 1) as int],
                id,
            ),
        messages::repaired(after) == after,
{
    a_reply_stands_before_its_results(state, response, lower, before, asked);
    results_are_told_as_they_came(later, results, asked, after);
    let at = before.len() as int;
    let reply = after[at];
    let told = after[at + 1];
    let content = messages::content_models(response.content@);
    let calls = tool_calls(content);
    assert(reply@ == asked[at]@);
    assert(messages::content_models(reply.content@) == content) by {
        let x = messages::content_models(reply.content@);
        assert(x == messages::content_models(asked[at].content@));
        assert(messages::content_models(asked[at].content@).len() == asked[at].content@.len());
        assert forall|j: int| 0 <= j < content.len() implies x[j] == content[j] by {
            assert(asked.last().content@[j]@ == response.content@[j]@);
        }
        assert(x =~= content);
    }
    assert forall|k: int| 0 <= k < results.len() implies ((
    #[trigger] told.content@[k]) matches ContentBlock::ToolResult { tool_use_id, .. }
        && messages::uses_tool(reply, tool_use_id@)) by {
        assert(told.content@[k]@ == results[k]@);
        assert(calls.contains(calls[k]));
        modelled_call_is_used(reply, calls[k]);
    }
    assert forall|id: Seq<char>| #[trigger]
        messages::uses_tool(reply, id) implies messages::answers_tool(told, id) by {
        let j = choose|j: int|
            0 <= j < reply.content@.len() && ((
            #[trigger] reply.content@[j]) matches ContentBlock::ToolUse { id: x, .. } && x@ == id);
        match reply.content@[j] {
            ContentBlock::ToolUse { id: x, name, input } => {
                let call = CallModel { id: x@, name: name@, input: input@ };
                let y = messages::content_models(reply.content@);
                assert(y[j] == ContentModel::ToolUse(x@, name@, input@));
                assert(y.len() == reply.content@.len());
                assert(content.contains(y[j]));
                every_tool_use_is_a_call(content, call);
                let k = choose|k: int| 0 <= k < calls.len() && calls[k] == call;
                assert(told.content@[k]@ == results[k]@);
                assert(told.content@[k] is ToolResult);
            },
            _ => {},
        }
    }
    reveal_strlit("user");
    reveal_strlit("assistant");
    assert("user"@.len() != "assistant"@.len());
    assert(messages::is_assistant(reply));
    last_assistant_before(after, at);
    assert(messages::paired_at(after, at));
}

/// A reply that is sent back stays in the conversation with all that it says, and
/// the user's message behind it says why it is not enough; a reply that ends the
/// rounds, or is to be classified, adds nothing yet.
pub proof fn replies_sent_back_stay(
    state: LoopState,
    response: LlmResponse,
    step: ResponseStep,
    before: Seq<LlmMessage>,
    after: Seq<LlmMessage>,
)
    requires
        messages::message_models(after) == messages::message_models(before) + said_after(
            state,
            messages::content_models(response.content@),
            step,
        ),
    ensures
        forall|i: int| 0 <= i < before.len() ==> (#[trigger] after[i])@ == before[i]@,
        step is Finish || step is Classify ==> after.len() == before.len(),
        step is Retry ==> {
            &&& after.len() == before.len() + 2
            &&& after[before.len() as int].role@ == "assistant"@
            &&& messages::content_models(after[before.len() as int].content@)
                == messages::content_models(response.content@)
            &&& after.last().role@ == "user"@
            &&& after.last().content@.len() == 1
            &&& after.last().content@[0] is Text
        },
{
    let b = messages::message_models(before);
    let a = messages::message_models(after);
    assert(a.len() == after.len() && b.len() == before.len());
    assert forall|i: int| 0 <= i < before.len() implies (#[trigger] after[i])@ == before[i]@ by {
        assert(a[i] == b[i]);
    }
    if step is Retry {
        assert(after[b.len() as int]@ == a[b.len() as int]);
        assert(after.last()@ == a[(b.len() + 1) as int]);
        let last = messages::content_models(after.last().content@);
        assert(last.len() == after.last().content@.len());
        assert(last[0] == after.last().content@[0]@);
    }
}

// What a reply leads to

/// Tools are run exactly where a reply calls some and ended for that; whatever
/// else holds.
pub proof fn tools_are_run_when_they_are_called(state: LoopState, resp: ResponseModel)
    ensures
        response_step(state, resp) == ResponseStep::RunTools <==> resp.calls.len() > 0
            && resp.stop_reason == Some("tool_use"@),
{
}

/// A reply that calls tools but ended for another reason is the answer.
pub proof fn calls_that_nothing_waits_for_end_the_rounds(state: LoopState, resp: ResponseModel)
    requires
        resp.calls.len() > 0,
        resp.stop_reason != Some("tool_use"@),
    ensures
        response_step(state, resp) == ResponseStep::Finish,
{
}

/// When a reply can be sent back no more, every reply without calls is the answer.
pub proof fn patience_comes_to_an_end(state: LoopState, resp: ResponseModel)
    requires
        state.scheduled_task_retries >= predicates::MAX_REPLY_RETRIES,
        state.empty_promise_retries >= predicates::MAX_REPLY_RETRIES,
        !state.must_use_web_search || state.web_search_reminder_injected || state.web_search_called,
        resp.calls.len() == 0,
    ensures
        response_step(state, resp) == ResponseStep::Finish,
{
}

/// A finished sentence of a conversation in which nothing was called, that was not
/// cut and for which no search is due, is the answer.
pub proof fn a_plain_sentence_is_the_answer(state: LoopState, resp: ResponseModel)
    requires
        !state.is_scheduled_task,
        !state.must_use_web_search,
        state.total_tool_calls == 0,
        resp.calls.len() == 0,
        resp.stop_reason != Some("length"@),
        text::trim(resp.said).len() > 0,
        text::trim(resp.said).last() == '!' || text::trim(resp.said).last() == '?',
    ensures
        response_step(state, resp) == ResponseStep::Finish,
{
    predicates::exclamations_and_questions_are_complete(
        state.empty_promise_retries as int,
        0,
        resp.said,
    );
}

/// A search that is due is asked for before anything else, and a reply that was
/// cut before it called anything is sent back as long as that is allowed.
pub proof fn what_is_due_is_asked_for(state: LoopState, resp: ResponseModel)
    requires
        resp.calls.len() == 0,
    ensures
        state.must_use_web_search && !state.web_search_called
            && !state.web_search_reminder_injected ==> response_step(state, resp)
            == ResponseStep::Retry(Nudge::WebSearch),
        resp.stop_reason == Some("length"@) && state.scheduled_task_retries
            < predicates::MAX_REPLY_RETRIES ==> response_step(state, resp) is Retry,
{
}

/// What the rounds were set up with stays, nothing that was counted is forgotten,
/// and tool calls are counted one by one where, and only where, tools are run; a
/// search counts as made exactly from the first call of its tool on.
pub proof fn a_step_counts_what_happened(state: LoopState, resp: ResponseModel)
    requires
        retries_bounded(state),
        state.total_tool_calls + resp.calls.len() <= usize::MAX,
    ensures
        ({
            let step = response_step(state, resp);
            let after = state_after(state, resp, step);
            &&& after.max_iterations == state.max_iterations
            &&& after.iteration == state.iteration
            &&& after.must_use_web_search == state.must_use_web_search
            &&& after.is_scheduled_task == state.is_scheduled_task
            &&& after.successful_tool_calls == state.successful_tool_calls
            &&& after.total_tool_calls - state.total_tool_calls == if step
                == ResponseStep::RunTools {
                resp.calls.len() as int
            } else {
                0
            }
            &&& after.web_search_called == (state.web_search_called || (step
                == ResponseStep::RunTools && exists|i: int|
                0 <= i < resp.calls.len() && (#[trigger] resp.calls[i]).name == "web_search"@))
            &&& after.scheduled_task_retries + after.empty_promise_retries
                == state.scheduled_task_retries + state.empty_promise_retries + if step is Retry
                && step != ResponseStep::Retry(Nudge::WebSearch) {
                1int
            } else {
                0int
            }
            &&& after.scheduled_task_retries >= state.scheduled_task_retries
            &&& after.empty_promise_retries >= state.empty_promise_retries
        }),
{
}

/// The successes of two lots of results add up; one result counts exactly where
/// it is a tool's result without an error.
pub proof fn successes_add_up(a: Seq<ContentModel>, b: Seq<ContentModel>)
    ensures
        success_count(a + b) == success_count(a) + success_count(b),
        a.len() == 1 ==> success_count(a) == if a[0] is ToolResult && !a[0]->ToolResult_2 {
            1int
        } else {
            0int
        },
    decreases b.len(),
{
    if b.len() == 0 {
        assert(a + b =~= a);
    } else {
        successes_add_up(a, b.drop_last());
        assert((a + b).drop_last() =~= a + b.drop_last());
        assert((a + b).last() == b.last());
    }
    if a.len() == 1 {
        assert(a.drop_last() =~= Seq::<ContentModel>::empty());
        assert(success_count(a.drop_last()) == 0);
    }
}

/// The model is told how many rounds are left in the last fifth of them, and only
/// there.
pub proof fn few_rounds_are_told(state: LoopState)
    ensures
        remaining_notice(state) is Some <==> state.iteration < state.max_iterations && 5 * (
        state.max_iterations - state.iteration) <= state.max_iterations,
        remaining_notice(state) matches Some(notice) ==> text::contains(
            notice,
            text::decimal((state.max_iterations - state.iteration) as nat),
        ),
{
    if remaining_notice(state) is Some {
        let left = text::decimal((state.max_iterations - state.iteration) as nat);
        text::middle_occurs(
            "[SYSTEM: You have "@,
            left,
            " tool call(s) remaining. Finish the current task now — do not start new exploratory work.]"@,
        );
    }
}

/// The result that stands in for a blank answer is a tool's result in the
/// conversation without an error that says something; none stands in only where
/// there is no such result; and one in the last message goes before all others.
pub proof fn the_last_result_stands_in(conversation: Seq<MessageModel>)
    ensures
        last_usable_result(conversation) matches Some(said) ==> text::trim(said).len() > 0
            && exists|i: int, j: int|
            0 <= i < conversation.len() && 0 <= j < conversation[i].content.len() && (
            #[trigger] conversation[i].content[j]) is ToolResult
                && conversation[i].content[j]->ToolResult_1 == said
                && !conversation[i].content[j]->ToolResult_2,
        last_usable_result(conversation) is None ==> forall|i: int, j: int|
            0 <= i < conversation.len() && 0 <= j < conversation[i].content.len() && (
            #[trigger] conversation[i].content[j]) is ToolResult
                && !conversation[i].content[j]->ToolResult_2 ==> text::trim(
                conversation[i].content[j]->ToolResult_1,
            ).len() == 0,
    decreases conversation.len(),
{
    if conversation.len() > 0 {
        let less = conversation.drop_last();
        let end = conversation.len() - 1;
        the_last_result_stands_in(less);
        usable_results_are_found(conversation[end].content);
        match first_usable_result(conversation.last().content) {
            Some(said) => {
                let content = conversation[end].content;
                let j = choose|j: int|
                    0 <= j < content.len() && (#[trigger] content[j]) is ToolResult
                        && content[j]->ToolResult_1 == said && !content[j]->ToolResult_2;
                assert(conversation[end].content[j] is ToolResult);
            },
            None => {
                if last_usable_result(less) is Some {
                    let said = last_usable_result(less)->0;
                    let (i, j) = choose|i: int, j: int|
                        0 <= i < less.len() && 0 <= j < less[i].content.len() && (
                        #[trigger] less[i].content[j]) is ToolResult
                            && less[i].content[j]->ToolResult_1 == said
                            && !less[i].content[j]->ToolResult_2;
                    assert(conversation[i].content[j] == less[i].content[j]);
                } else {
                    assert forall|i: int, j: int|
                        0 <= i < conversation.len() && 0 <= j < conversation[i].content.len() && (
                        #[trigger] conversation[i].content[j]) is ToolResult
                            && !conversation[i].content[j]->ToolResult_2 implies text::trim(
                        conversation[i].content[j]->ToolResult_1,
                    ).len() == 0 by {
                        if i < end {
                            assert(less[i].content[j] == conversation[i].content[j]);
                        } else {
                            assert(conversation[end].content[j] is ToolResult);
                        }
                    }
                }
            },
        }
    }
}

/// The first result of a message that can be used: there is one exactly where a
/// result without an error says something, and no such result stands before it.
pub proof fn usable_results_are_found(content: Seq<ContentModel>)
    ensures
        first_usable_result(content) matches Some(said) ==> text::trim(said).len() > 0
            && exists|j: int|
            0 <= j < content.len() && (#[trigger] content[j]) is ToolResult
                && content[j]->ToolResult_1 == said && !content[j]->ToolResult_2 && forall|k: int|
                0 <= k < j && (#[trigger] content[k]) is ToolResult && !content[k]->ToolResult_2
                    ==> text::trim(content[k]->ToolResult_1).len() == 0,
        first_usable_result(content) is None ==> forall|j: int|
            0 <= j < content.len() && (#[trigger] content[j]) is ToolResult
                && !content[j]->ToolResult_2 ==> text::trim(content[j]->ToolResult_1).len() == 0,
    decreases content.len(),
{
    if content.len() > 0 {
        let rest = content.skip(1);
        usable_results_are_found(rest);
        let own = content[0] is ToolResult && !content[0]->ToolResult_2 && text::trim(
            content[0]->ToolResult_1,
        ).len() > 0;
        if own {
            assert(content[0] is ToolResult);
        } else {
            assert(first_usable_result(content) == first_usable_result(rest));
            assert forall|k: int| 0 < k < content.len() implies #[trigger] content[k] == rest[k
                - 1] by {}
            if first_usable_result(rest) is Some {
                let said = first_usable_result(rest)->0;
                let j = choose|j: int|
                    0 <= j < rest.len() && (#[trigger] rest[j]) is ToolResult
                        && rest[j]->ToolResult_1 == said && !rest[j]->ToolResult_2 && forall|k: int|
                        0 <= k < j && (#[trigger] rest[k]) is ToolResult && !rest[k]->ToolResult_2
                            ==> text::trim(rest[k]->ToolResult_1).len() == 0;
                assert(content[j + 1] == rest[j]);
                assert forall|k: int|
                    0 <= k < j + 1 && (#[trigger] content[k]) is ToolResult
                        && !content[k]->ToolResult_2 implies text::trim(
                    content[k]->ToolResult_1,
                ).len() == 0 by {
                    if k > 0 {
                        assert(content[k] == rest[k - 1]);
                    }
                }
            } else {
                assert forall|j: int|
                    0 <= j < content.len() && (#[trigger] content[j]) is ToolResult
                        && !content[j]->ToolResult_2 implies text::trim(
                    content[j]->ToolResult_1,
                ).len() == 0 by {
                    if j > 0 {
                        assert(content[j] == rest[j - 1]);
                    }
                }
            }
        }
    }
}

/// The rounds begin with nothing called, nothing sent back and nothing reminded of.
pub proof fn rounds_begin_with_nothing_done(max: usize, must_search: bool, scheduled: bool)
    ensures
        ({
            let state = initial_state(max, must_search, scheduled);
            &&& state.max_iterations == max
            &&& state.must_use_web_search == must_search
            &&& state.is_scheduled_task == scheduled
            &&& state.iteration == 0
            &&& state.total_tool_calls == 0 && state.successful_tool_calls == 0
            &&& state.scheduled_task_retries == 0 && state.empty_promise_retries == 0
            &&& !state.web_search_called && !state.web_search_reminder_injected
            &&& retries_bounded(state)
        }),
{
}

/// A task that was stopped asks nothing more; else the model is asked with tools
/// as long as rounds are left, and without them then.
pub proof fn rounds_are_begun_while_they_last(state: LoopState, cancelled: bool)
    ensures
        begin_step(state, cancelled) == BeginStep::Stopped <==> cancelled,
        begin_step(state, cancelled) == BeginStep::AskModel <==> !cancelled && state.iteration
            < state.max_iterations,
        begin_step(state, cancelled) == BeginStep::AskWithoutTools <==> !cancelled
            && state.iteration >= state.max_iterations,
{
}

/// Without a list every tool is offered; with one those whose names begin with an
/// entry, so that an entry offers the tool of its name, and an empty list none.
pub proof fn lists_offer_what_they_name(name: Seq<char>, rest: Seq<char>, list: Seq<Seq<char>>)
    ensures
        offered(name, None),
        !offered(name, Some(Seq::empty())),
        list.contains(name) ==> offered(name, Some(list)) && offered(name + rest, Some(list)),
        (forall|i: int|
            0 <= i < list.len() ==> !text::starts_with(name, #[trigger] list[i])) ==> !offered(
            name,
            Some(list),
        ),
{
    if list.contains(name) {
        let i = choose|i: int| 0 <= i < list.len() && list[i] == name;
        assert(name.take(name.len() as int) =~= name);
        assert((name + rest).take(name.len() as int) =~= name);
        assert(text::starts_with(name, list[i]));
        assert(text::starts_with(name + rest, list[i]));
    }
}

/// What the model is told fits the fault of its reply, and the kind of its task.
pub proof fn nudges_fit_the_fault(state: LoopState, content: Seq<ContentModel>, nudge: Nudge)
    ensures
        said_after(state, content, ResponseStep::Retry(nudge)).len() == 2,
        said_after(state, content, ResponseStep::Retry(nudge))[1].content == seq![
            ContentModel::Text(
                match (nudge, state.is_scheduled_task) {
                    (Nudge::WebSearch, _) => WEB_SEARCH_NUDGE@,
                    (Nudge::EmptyPromise, _) => EMPTY_PROMISE_NUDGE@,
                    (Nudge::Fabricated, true) => FABRICATED_TASK_NUDGE@,
                    (Nudge::Fabricated, false) => FABRICATED_NUDGE@,
                    (Nudge::Truncated, true) => TRUNCATED_TASK_NUDGE@,
                    (Nudge::Truncated, false) => TRUNCATED_NUDGE@,
                    (Nudge::Incomplete, true) => INCOMPLETE_TASK_NUDGE@,
                    (Nudge::Incomplete, false) => INCOMPLETE_NUDGE@,
                },
            ),
        ],
{
}

/// Each fault of a plain reply is met where it can be: a claim without a tool in a
/// scheduled task, a cut, an announcement after tools, an open end; and where its
/// end tells nothing, a model is asked.
pub proof fn each_fault_is_met(state: LoopState, resp: ResponseModel)
    requires
        resp.calls.len() == 0,
        !state.must_use_web_search || state.web_search_called || state.web_search_reminder_injected,
    ensures
        ({
            let step = response_step(state, resp);
            let early = state.scheduled_task_retries < 2;
            let claims = state.is_scheduled_task && early && state.total_tool_calls == 0
                && predicates::claims_action(resp.lower);
            let cut = resp.stop_reason == Some("length"@) && early;
            let announces = (state.scheduled_task_retries == 0 || state.is_scheduled_task && early)
                && state.total_tool_calls > 0 && text::utf8_len(resp.said) < 500
                && predicates::announces_intent(resp.lower);
            let verdict = predicates::promise_verdict(
                state.empty_promise_retries as int,
                0,
                resp.said,
            );
            &&& claims <==> step == ResponseStep::Retry(Nudge::Fabricated)
            &&& cut && !claims <==> step == ResponseStep::Retry(Nudge::Truncated)
            &&& announces && !cut && !claims <==> step == ResponseStep::Retry(Nudge::Incomplete)
            &&& !announces && !cut && !claims ==> {
                &&& verdict == EmptyPromiseVerdict::Evident <==> step == ResponseStep::Retry(
                    Nudge::EmptyPromise,
                )
                &&& verdict == EmptyPromiseVerdict::Inconclusive <==> step
                    == ResponseStep::Classify
                &&& verdict == EmptyPromiseVerdict::No <==> step == ResponseStep::Finish
            }
        }),
{
}

/// A reply that was found to be a promise is sent back, and any other is the
/// answer.
pub proof fn promises_are_sent_back(is_promise: bool)
    ensures
        classified_step(is_promise) == ResponseStep::Retry(Nudge::EmptyPromise) <==> is_promise,
        classified_step(is_promise) == ResponseStep::Finish <==> !is_promise,
{
}

/// Of several messages with results the last one stands in for an answer; a
/// message without one changes nothing.
pub proof fn later_results_go_first(
    conversation: Seq<MessageModel>,
    role: Seq<char>,
    id: Seq<char>,
    said: Seq<char>,
    is_error: bool,
)
    ensures
        ({
            let told = MessageModel {
                role,
                content: seq![ContentModel::ToolResult(id, said, is_error)],
            };
            last_usable_result(conversation.push(told)) == if !is_error && text::trim(said).len()
                > 0 {
                Some(said)
            } else {
                last_usable_result(conversation)
            }
        }),
        last_usable_result(
            conversation.push(MessageModel { role, content: seq![ContentModel::Text(said)] }),
        ) == last_usable_result(conversation),
{
    let result = seq![ContentModel::ToolResult(id, said, is_error)];
    let plain = seq![ContentModel::Text(said)];
    assert(result.skip(1) =~= Seq::<ContentModel>::empty());
    assert(plain.skip(1) =~= Seq::<ContentModel>::empty());
    assert(first_usable_result(Seq::<ContentModel>::empty()) is None);
    assert(conversation.push(MessageModel { role, content: result }).drop_last() =~= conversation);
    assert(conversation.push(MessageModel { role, content: plain }).drop_last() =~= conversation);
}

} // verus!
