//! What becomes of a message that comes in.

use crate::orchestrator::attachment::{Attachment, AttachmentKind};
use crate::orchestrator::messages;
use crate::orchestrator::messages::{ContentBlock, ContentModel, LlmMessage, MessageModel};
use crate::orchestrator::predicates;
use crate::orchestrator::skill_commands;
use crate::text;
use vstd::prelude::*;

verus! {

pub const STOP_HINT: &'static str = "Use /stop from the chat channel to cancel the active task.";

pub const LENGTH_LIMIT_REPLY: &'static str =
    "Response exceeded the output token limit. Please try a simpler request or break it into smaller parts.";

/// The length of a streamed reply and of the reply after a reset, in tokens.
pub const SHORT_RESPONSE_TOKENS: u32 = 2048;

// Commands and intents

/// A command at the start of a message.
#[derive(Clone, Debug)]
pub enum SlashCommand {
    Model { new_model: Option<String> },
    Status,
    Stop,
    SkillAnalyze { source: String },
    SkillInstall { source: String },
    SkillConfirm { token: String },
    SkillRemove { skill_name: String },
    SkillList,
    SkillUsageHint { subcommand: String },
    New { model_hint: Option<String> },
    Reset,
}

/// Where a message goes.
#[derive(Clone, Debug)]
pub enum InboundRoute {
    ChangeModel(String),
    ShowModel,
    ShowStatus,
    Reply(String),
    AnalyzeSkill { source: String, install_requested: bool },
    ConfirmSkill(String),
    RemoveSkill(String),
    ListSkills,
    ResetSession { model_hint: Option<String> },
    /// To the model.
    Converse,
}

/// Where a route leads.
pub enum RouteModel {
    ChangeModel(Seq<char>),
    ShowModel,
    ShowStatus,
    Reply(Seq<char>),
    AnalyzeSkill(Seq<char>, bool),
    ConfirmSkill(Seq<char>),
    RemoveSkill(Seq<char>),
    ListSkills,
    ResetSession(Option<Seq<char>>),
    Converse,
}

impl View for InboundRoute {
    type V = RouteModel;

    open spec fn view(&self) -> RouteModel {
        match *self {
            InboundRoute::ChangeModel(s) => RouteModel::ChangeModel(s@),
            InboundRoute::ShowModel => RouteModel::ShowModel,
            InboundRoute::ShowStatus => RouteModel::ShowStatus,
            InboundRoute::Reply(s) => RouteModel::Reply(s@),
            InboundRoute::AnalyzeSkill { source, install_requested } => RouteModel::AnalyzeSkill(
                source@,
                install_requested,
            ),
            InboundRoute::ConfirmSkill(s) => RouteModel::ConfirmSkill(s@),
            InboundRoute::RemoveSkill(s) => RouteModel::RemoveSkill(s@),
            InboundRoute::ListSkills => RouteModel::ListSkills,
            InboundRoute::ResetSession { model_hint } => RouteModel::ResetSession(
                text::opt_view(model_hint),
            ),
            InboundRoute::Converse => RouteModel::Converse,
        }
    }
}

/// Where a command leads.
pub open spec fn command_route(command: SlashCommand) -> RouteModel {
    match command {
        SlashCommand::Model { new_model } => match new_model {
            Some(model) => RouteModel::ChangeModel(model@),
            None => RouteModel::ShowModel,
        },
        SlashCommand::Status => RouteModel::ShowStatus,
        SlashCommand::Stop => RouteModel::Reply(STOP_HINT@),
        SlashCommand::SkillAnalyze { source } => RouteModel::AnalyzeSkill(source@, false),
        SlashCommand::SkillInstall { source } => RouteModel::AnalyzeSkill(source@, true),
        SlashCommand::SkillConfirm { token } => RouteModel::ConfirmSkill(token@),
        SlashCommand::SkillRemove { skill_name } => RouteModel::RemoveSkill(skill_name@),
        SlashCommand::SkillList => RouteModel::ListSkills,
        SlashCommand::SkillUsageHint { subcommand } => RouteModel::Reply(
            skill_commands::usage_hint(subcommand@),
        ),
        SlashCommand::New { model_hint } => RouteModel::ResetSession(text::opt_view(model_hint)),
        SlashCommand::Reset => RouteModel::ResetSession(None),
    }
}

/// Where a message leads: a command goes first, then the wish to install a
/// skill, then the wish to remove one, then the wish to install without saying
/// what; everything else goes to the model.
pub open spec fn message_route(
    command: Option<SlashCommand>,
    said: Seq<char>,
    removal: Option<Seq<char>>,
) -> RouteModel {
    match command {
        Some(command) => command_route(command),
        None => match predicates::install_source(said) {
            Some(source) => RouteModel::AnalyzeSkill(source, true),
            None => match removal {
                Some(name) => RouteModel::RemoveSkill(name),
                None => if predicates::install_prefix(text::trim(said)) is Some {
                    RouteModel::Reply(skill_commands::SKILL_INSTALL_USAGE_HINT@)
                } else {
                    RouteModel::Converse
                },
            },
        },
    }
}

fn route_command(command: SlashCommand) -> (r: InboundRoute)
    ensures
        r@ == command_route(command),
{
    match command {
        SlashCommand::Model { new_model } => match new_model {
            Some(model) => InboundRoute::ChangeModel(model),
            None => InboundRoute::ShowModel,
        },
        SlashCommand::Status => InboundRoute::ShowStatus,
        SlashCommand::Stop => InboundRoute::Reply(STOP_HINT.to_owned()),
        SlashCommand::SkillAnalyze { source } => InboundRoute::AnalyzeSkill {
            source,
            install_requested: false,
        },
        SlashCommand::SkillInstall { source } => InboundRoute::AnalyzeSkill {
            source,
            install_requested: true,
        },
        SlashCommand::SkillConfirm { token } => InboundRoute::ConfirmSkill(token),
        SlashCommand::SkillRemove { skill_name } => InboundRoute::RemoveSkill(skill_name),
        SlashCommand::SkillList => InboundRoute::ListSkills,
        SlashCommand::SkillUsageHint { subcommand } => InboundRoute::Reply(
            skill_commands::skill_usage_hint(subcommand.as_str()).to_owned(),
        ),
        SlashCommand::New { model_hint } => InboundRoute::ResetSession { model_hint },
        SlashCommand::Reset => InboundRoute::ResetSession { model_hint: None },
    }
}

pub fn route_inbound(command: Option<SlashCommand>, said: &str, removal: Option<String>) -> (r:
    InboundRoute)
    ensures
        r@ == message_route(command, said@, text::opt_view(removal)),
{
    match command {
        Some(command) => route_command(command),
        None => match predicates::detect_skill_install_intent(said) {
            Some(source) => InboundRoute::AnalyzeSkill { source, install_requested: true },
            None => match removal {
                Some(name) => InboundRoute::RemoveSkill(name),
                None => if predicates::is_skill_install_intent_without_source(said) {
                    InboundRoute::Reply(skill_commands::SKILL_INSTALL_USAGE_HINT.to_owned())
                } else {
                    InboundRoute::Converse
                },
            },
        },
    }
}

// The session before

#[derive(Clone, Copy, Debug, PartialEq, Eq, Structural)]
pub enum SessionResetReason {
    Idle,
    Daily,
    Explicit,
}

/// What is done with the session that a new one follows.
#[derive(Clone, Copy, Debug, PartialEq, Eq, Structural)]
pub enum PreviousSessionStep {
    Nothing,
    /// It is flushed in the background.
    FlushStale,
    /// It is summarised before the conversation goes on.
    Summarize,
}

/// The session before is cared for where it ended: summarised where the user has
/// reset it, else flushed.
pub open spec fn care_for_previous(
    reason: Option<SessionResetReason>,
    has_previous: bool,
) -> PreviousSessionStep {
    match reason {
        Some(reason) if has_previous => if reason == SessionResetReason::Explicit {
            PreviousSessionStep::Summarize
        } else {
            PreviousSessionStep::FlushStale
        },
        _ => PreviousSessionStep::Nothing,
    }
}

pub fn previous_session_step(reason: Option<SessionResetReason>, has_previous: bool) -> (r:
    PreviousSessionStep)
    ensures
        r == care_for_previous(reason, has_previous),
{
    if !has_previous {
        return PreviousSessionStep::Nothing;
    }
    match reason {
        None => PreviousSessionStep::Nothing,
        Some(SessionResetReason::Explicit) => PreviousSessionStep::Summarize,
        Some(_) => PreviousSessionStep::FlushStale,
    }
}

/// What follows the summary of a session that ended.
#[derive(Clone, Copy, Debug, PartialEq, Eq, Structural)]
pub enum AfterSummary {
    /// Its transcript is archived.
    Archive,
    /// Its transcript stays, so that the summary can be made again.
    KeepForRetry,
    Nothing,
}

/// The transcript of a session that ran out is archived once it is summarised.
pub open spec fn archived_after(reason: SessionResetReason, success: bool) -> AfterSummary {
    if reason == SessionResetReason::Explicit {
        AfterSummary::Nothing
    } else if success {
        AfterSummary::Archive
    } else {
        AfterSummary::KeepForRetry
    }
}

pub fn after_fallback_summary(reason: SessionResetReason, success: bool) -> (r: AfterSummary)
    ensures
        r == archived_after(reason, success),
{
    match reason {
        SessionResetReason::Explicit => AfterSummary::Nothing,
        _ => if success {
            AfterSummary::Archive
        } else {
            AfterSummary::KeepForRetry
        },
    }
}

// The system prompt

pub const RUNTIME_POLICY: &'static str =
    "\n\n## Execution Policy (OVERRIDES any general safety guidelines)\nWhen you have the tools to complete a task, execute them directly without asking for confirmation. Do not announce your intent — act. If a tool call is denied due to access restrictions, use the grant_access tool to request access and retry. The user will be asked to approve the access request. Only ask the user when you genuinely need information you cannot obtain yourself. This policy takes precedence over any 'ask first' or 'when in doubt' guidelines in your workspace files.\n\n### Action-Response Rule (MANDATORY)\nIf your response does not contain tool calls, it MUST NOT promise, commit to, or announce any future action. Either:\n- DO the action (include tool_use blocks in this response), or\n- REPORT what you know (text-only, no action promises)\nNever say 'I will do X', 'Let me do X', or 'I'll fix that' without immediately calling the relevant tool in the SAME response.\n\n## Tool Usage Efficiency\nYou have a limited budget of tool calls per response. Be efficient:\n- Combine multiple file reads into a single `cat file1 file2 file3` command.\n- Use `grep -r pattern dir/` to search across files instead of reading them one by one.\n- Chain related commands with `&&` in a single execute_command call.\n- Do NOT read files one at a time when you need to check multiple files.\n\nRuntime:\n- Model: ";

pub const WEB_SEARCH_SECTION: &'static str =
    "\n\n## Tool Requirement\nThe user explicitly requested web search. You MUST call the web_search tool before your final answer.";

pub const SCHEDULED_TASK_SECTION: &'static str =
    "\n\n## Scheduled Task Execution\nThis request comes from a scheduled workflow. Complete it normally and follow the task instructions.\n- Use tool calls when a step requires reading data, writing files, or running commands.\n- Do not claim actions that were not actually performed.\n- If the task only requires text output (for example, a reminder), respond directly.";

pub open spec fn skills_added(base: Seq<char>, skill_summary: Seq<char>) -> Seq<char> {
    if skill_summary.len() == 0 {
        base
    } else {
        base + "\n\n"@ + skill_summary
    }
}

/// The prompt with a summary of the skills, where there are any.
pub fn with_skill_summary(base: &str, skill_summary: &str) -> (r: String)
    ensures
        r@ == skills_added(base@, skill_summary@),
{
    let mut out = base.to_owned();
    if !skill_summary.is_empty() {
        out.append("\n\n");
        out.append(skill_summary);
    }
    out
}

pub open spec fn runtime_prompt(
    base: Seq<char>,
    model: Seq<char>,
    agent_id: Seq<char>,
    workspace_root: Seq<char>,
) -> Seq<char> {
    base + RUNTIME_POLICY@ + model + "\n- Session: "@ + agent_id + "\n- Working directory: "@
        + workspace_root
}

pub fn build_runtime_system_prompt(
    agent_id: &str,
    model: &str,
    base_prompt: &str,
    workspace_root: &str,
) -> (r: String)
    ensures
        r@ == runtime_prompt(base_prompt@, model@, agent_id@, workspace_root@),
{
    let mut out = base_prompt.to_owned();
    out.append(RUNTIME_POLICY);
    out.append(model);
    out.append("\n- Session: ");
    out.append(agent_id);
    out.append("\n- Working directory: ");
    out.append(workspace_root);
    out
}

/// What a prompt is made from.
#[derive(Clone, Debug)]
pub struct PromptParts<'a> {
    pub persona: &'a str,
    pub skill_summary: &'a str,
    /// The skills that the request forces, and those of them that are missing.
    pub forced_names: &'a [String],
    pub missing_names: &'a [String],
    pub agent_id: &'a str,
    pub model: &'a str,
    pub workspace_root: &'a str,
    pub memory_context: &'a str,
}

/// The prompt: persona, skills, forced skills, the rules at run time, and what
/// is remembered.
pub open spec fn assembled_prompt(
    persona: Seq<char>,
    skill_summary: Seq<char>,
    forced_names: Seq<Seq<char>>,
    missing_names: Seq<Seq<char>>,
    agent_id: Seq<char>,
    model: Seq<char>,
    workspace_root: Seq<char>,
    memory_context: Seq<char>,
) -> Seq<char> {
    let skilled = skills_added(persona, skill_summary);
    let forced = if forced_names.len() == 0 {
        skilled
    } else {
        skilled + skill_commands::forced_section(forced_names, missing_names)
    };
    let running = runtime_prompt(forced, model, agent_id, workspace_root);
    if memory_context.len() == 0 {
        running
    } else {
        running + "\n\n## Relevant Memory\n"@ + memory_context
    }
}

pub fn assemble_system_prompt(parts: &PromptParts) -> (r: String)
    ensures
        r@ == assembled_prompt(
            parts.persona@,
            parts.skill_summary@,
            text::views(parts.forced_names@),
            text::views(parts.missing_names@),
            parts.agent_id@,
            parts.model@,
            parts.workspace_root@,
            parts.memory_context@,
        ),
{
    let mut base = with_skill_summary(parts.persona, parts.skill_summary);
    assert(text::views(parts.forced_names@).len() == parts.forced_names@.len());
    if parts.forced_names.len() > 0 {
        base.append(
            skill_commands::forced_skill_section(parts.forced_names, parts.missing_names).as_str(),
        );
    }
    let mut out = build_runtime_system_prompt(
        parts.agent_id,
        parts.model,
        base.as_str(),
        parts.workspace_root,
    );
    if !parts.memory_context.is_empty() {
        out.append("\n\n## Relevant Memory\n");
        out.append(parts.memory_context);
    }
    out
}

/// What a prompt says of the request.
pub open spec fn requirements(must_use_web_search: bool, is_scheduled_task: bool) -> Seq<char> {
    (if must_use_web_search {
        WEB_SEARCH_SECTION@
    } else {
        Seq::empty()
    }) + (if is_scheduled_task {
        SCHEDULED_TASK_SECTION@
    } else {
        Seq::empty()
    })
}

pub fn with_requirements(prompt: &str, must_use_web_search: bool, is_scheduled_task: bool) -> (r:
    String)
    ensures
        r@ == prompt@ + requirements(must_use_web_search, is_scheduled_task),
{
    let mut out = prompt.to_owned();
    if must_use_web_search {
        out.append(WEB_SEARCH_SECTION);
    }
    if is_scheduled_task {
        out.append(SCHEDULED_TASK_SECTION);
    }
    assert(out@ =~= prompt@ + requirements(must_use_web_search, is_scheduled_task));
    out
}

/// The prompt after a reset: persona, skills and the rules at run time.
pub fn post_reset_system_prompt(
    persona: &str,
    skill_summary: &str,
    agent_id: &str,
    model: &str,
    workspace_root: &str,
) -> (r: String)
    ensures
        r@ == runtime_prompt(
            skills_added(persona@, skill_summary@),
            model@,
            agent_id@,
            workspace_root@,
        ),
{
    let base = with_skill_summary(persona, skill_summary);
    build_runtime_system_prompt(agent_id, model, base.as_str(), workspace_root)
}

// The request

/// The request must be answered from a web search: it asks for one, and the
/// tool is there.
pub fn requires_web_search(said: &str, tool_names: &[String]) -> (r: bool)
    ensures
        r == (predicates::asks_web_search(said@) && text::views(tool_names@).contains(
            "web_search"@,
        )),
{
    if !predicates::is_explicit_web_search_request(said) {
        return false;
    }
    has_tool_registered(tool_names, "web_search")
}

pub fn has_tool_registered(tool_names: &[String], name: &str) -> (r: bool)
    ensures
        r == text::views(tool_names@).contains(name@),
{
    match crate::token_set::position_of(tool_names, name) {
        Some(i) => {
            assert(text::views(tool_names@)[i as int] == name@);
            true
        },
        None => false,
    }
}

/// The message comes from a scheduled task.
pub fn is_scheduled_task(message_source: Option<&str>) -> (r: bool)
    ensures
        r == (message_source matches Some(source) && source@ == "scheduled_task"@),
{
    match message_source {
        Some(source) => text::same_text(source, "scheduled_task"),
        None => false,
    }
}

/// The tokens that a reply may take.
pub fn response_token_limit(configured: Option<u32>, is_scheduled_task: bool) -> (r: u32)
    ensures
        r == (match configured {
            Some(n) => n,
            None => if is_scheduled_task {
                8192
            } else {
                4096
            },
        }),
{
    match configured {
        Some(n) => n,
        None => if is_scheduled_task {
            8192
        } else {
            4096
        },
    }
}

/// The tools that an agent's policy allows; an empty list does not limit.
pub fn policy_tools(allow: Option<&[String]>) -> (r: Option<Vec<String>>)
    ensures
        skill_commands::opt_views(r) == (match allow {
            Some(list) if list@.len() > 0 => Some(text::views(list@)),
            _ => None,
        }),
{
    match allow {
        None => None,
        Some(list) => if list.len() == 0 {
            None
        } else {
            Some(text::copy_list(list))
        },
    }
}

/// What the user says, as a message to the model: the text alone, or with what
/// was attached.
pub open spec fn asked(said: Seq<char>, blocks: Seq<ContentModel>) -> MessageModel {
    if blocks.len() == 0 {
        messages::text_message("user"@, said)
    } else {
        MessageModel {
            role: "user"@,
            content: if said.len() == 0 {
                blocks
            } else {
                seq![ContentModel::Text(said)] + blocks
            },
        }
    }
}

pub fn user_message(said: String, attachment_blocks: Vec<ContentBlock>) -> (r: LlmMessage)
    ensures
        r@ == asked(said@, messages::content_models(attachment_blocks@)),
{
    assert(messages::content_models(attachment_blocks@).len() == attachment_blocks@.len());
    if attachment_blocks.len() == 0 {
        LlmMessage::user(said)
    } else {
        let ghost blocks = messages::content_models(attachment_blocks@);
        let ghost text_said = said@;
        let content = messages::build_user_content(said, attachment_blocks);
        assert(messages::content_models(content@) =~= asked(text_said, blocks).content);
        LlmMessage { role: "user".to_owned(), content }
    }
}

// The reply

/// The text of a reply: where nothing is left to say and the reply was cut
/// short, that is said.
pub open spec fn reply_text(visible: Seq<char>, stop_reason: Option<Seq<char>>) -> Seq<char> {
    if visible.len() == 0 && stop_reason == Some("length"@) {
        LENGTH_LIMIT_REPLY@
    } else {
        visible
    }
}

/// The text that goes out for a reply of the model.
pub fn final_reply(processed: &str, stop_reason: Option<&str>) -> (r: String)
    ensures
        r@ == reply_text(
            predicates::visible_reply(processed@),
            match stop_reason {
                Some(s) => Some(s@),
                None => None,
            },
        ),
{
    let visible = predicates::filter_no_reply(processed);
    if !visible.as_str().is_empty() {
        return visible;
    }
    match stop_reason {
        Some(s) => if text::same_text(s, "length") {
            LENGTH_LIMIT_REPLY.to_owned()
        } else {
            visible
        },
        None => visible,
    }
}

/// A reply that was cut short is never silent.
pub proof fn cut_reply_says_so(visible: Seq<char>)
    ensures
        reply_text(visible, Some("length"@)).len() > 0,
{
    reveal_strlit(
        "Response exceeded the output token limit. Please try a simpler request or break it into smaller parts.",
    );
}

/// What an attachment is, apart from its text.
pub struct AttachmentModel {
    pub kind: AttachmentKind,
    pub url: Seq<char>,
    pub mime_type: Option<Seq<char>>,
    pub file_name: Option<Seq<char>>,
    pub size: Option<u64>,
}

impl View for Attachment {
    type V = AttachmentModel;

    open spec fn view(&self) -> AttachmentModel {
        AttachmentModel {
            kind: self.kind,
            url: self.url@,
            mime_type: text::opt_view(self.mime_type),
            file_name: text::opt_view(self.file_name),
            size: self.size,
        }
    }
}

pub open spec fn attachment_models(s: Seq<Attachment>) -> Seq<AttachmentModel> {
    Seq::new(s.len(), |i: int| s[i]@)
}

/// The images of a content as attachments, in order.
pub open spec fn images_attached(content: Seq<ContentModel>) -> Seq<AttachmentModel>
    decreases content.len(),
{
    if content.len() == 0 {
        Seq::empty()
    } else {
        let before = images_attached(content.drop_last());
        match content.last() {
            ContentModel::Image(data, media_type) => before.push(
                AttachmentModel {
                    kind: AttachmentKind::Image,
                    url: data,
                    mime_type: Some(media_type),
                    file_name: None,
                    size: None,
                },
            ),
            _ => before,
        }
    }
}

/// The attachments of a reply: its images, then what the tools attached.
pub fn outbound_attachments(content: &[ContentBlock], tool_attachments: Vec<Attachment>) -> (r: Vec<
    Attachment,
>)
    ensures
        attachment_models(r@) == images_attached(messages::content_models(content@))
            + attachment_models(tool_attachments@),
{
    let mut out: Vec<Attachment> = Vec::new();
    let n: usize = content.len();
    let ghost all = messages::content_models(content@);
    assert(attachment_models(out@) =~= images_attached(all.take(0)));
    for i in 0..n
        invariant
            n == content@.len(),
            all == messages::content_models(content@),
            attachment_models(out@) == images_attached(all.take(i as int)),
    {
        assert(all.take(i + 1).drop_last() == all.take(i as int));
        assert(all.take(i + 1).last() == content@[i as int]@);
        match &content[i] {
            ContentBlock::Image { data, media_type } => {
                let image = Attachment {
                    kind: AttachmentKind::Image,
                    url: data.clone(),
                    mime_type: Some(media_type.clone()),
                    file_name: None,
                    size: None,
                };
                let ghost made = attachment_models(out@);
                let ghost said = image@;
                out.push(image);
                assert(attachment_models(out@) =~= made.push(said));
            },
            _ => {},
        }
    }
    assert(all.take(n as int) == all);
    let ghost images = out@;
    let ghost added = tool_attachments@;
    let mut more = tool_attachments;
    out.append(&mut more);
    assert(attachment_models(images + added) =~= attachment_models(images) + attachment_models(
        added,
    ));
    out
}

/// Where a message came from.
#[derive(Clone, Debug)]
pub struct ReplyAddress {
    pub trace_id: String,
    pub channel_type: String,
    pub connector_id: String,
    pub conversation_scope: String,
}

/// A message that goes out.
#[derive(Clone, Debug)]
pub struct OutboundMessage {
    pub trace_id: String,
    pub channel_type: String,
    pub connector_id: String,
    pub conversation_scope: String,
    pub text: String,
    pub reply_to: Option<String>,
    pub attachments: Vec<Attachment>,
}

/// A reply goes back where the message came from.
pub fn reply_message(address: &ReplyAddress, said: String, attachments: Vec<Attachment>) -> (r:
    OutboundMessage)
    ensures
        r.trace_id@ == address.trace_id@,
        r.channel_type@ == address.channel_type@,
        r.connector_id@ == address.connector_id@,
        r.conversation_scope@ == address.conversation_scope@,
        r.text == said,
        r.reply_to is None,
        r.attachments == attachments,
{
    OutboundMessage {
        trace_id: address.trace_id.clone(),
        channel_type: address.channel_type.clone(),
        connector_id: address.connector_id.clone(),
        conversation_scope: address.conversation_scope.clone(),
        text: said,
        reply_to: None,
        attachments,
    }
}

// The transcript

/// The session is indexed again where anything was written to it.
pub fn session_changed(written: &[bool]) -> (r: bool)
    ensures
        r == written@.contains(true),
{
    let n: usize = written.len();
    for i in 0..n
        invariant
            n == written@.len(),
            forall|k: int| 0 <= k < i ==> !(#[trigger] written@[k]),
    {
        if written[i] {
            assert(written@[i as int]);
            return true;
        }
    }
    false
}

/// The number of the turn that ends with a reply; scheduled tasks are no turns
/// of the session's episodes.
pub fn tracked_turn(interaction_count: u64, is_scheduled_task: bool) -> (r: Option<u64>)
    ensures
        r == (if is_scheduled_task {
            None
        } else if interaction_count == u64::MAX {
            Some(u64::MAX)
        } else {
            Some((interaction_count + 1) as u64)
        }),
{
    if is_scheduled_task {
        None
    } else {
        Some(interaction_count.saturating_add(1))
    }
}

// Streams

/// The end of a stream is in another language than it should be.
pub fn language_mismatch(
    is_final: bool,
    exempt: bool,
    target: Option<&str>,
    detected: Option<&str>,
) -> (r: bool)
    ensures
        r == (is_final && !exempt && (target matches Some(t) && detected matches Some(d) && t@
            != d@)),
{
    if !is_final || exempt {
        return false;
    }
    match (target, detected) {
        (Some(t), Some(d)) => !text::same_text(t, d),
        _ => false,
    }
}

/// What has been streamed so far, with one more piece.
pub fn accumulate(so_far: &mut String, delta: &str)
    ensures
        final(so_far)@ == old(so_far)@ + delta@,
{
    so_far.append(delta);
}

// What a prompt, a route and a reply hold

/// Whatever else a prompt is made from, it begins with the persona, and behind
/// that with the summary of the skills where there is one.
pub proof fn prompts_begin_with_persona_and_skills(
    persona: Seq<char>,
    skill_summary: Seq<char>,
    forced_names: Seq<Seq<char>>,
    missing_names: Seq<Seq<char>>,
    agent_id: Seq<char>,
    model: Seq<char>,
    workspace_root: Seq<char>,
    memory_context: Seq<char>,
)
    ensures
        ({
            let prompt = assembled_prompt(
                persona,
                skill_summary,
                forced_names,
                missing_names,
                agent_id,
                model,
                workspace_root,
                memory_context,
            );
            &&& text::starts_with(prompt, persona)
            &&& skill_summary.len() > 0 ==> text::starts_with(
                prompt,
                persona + "\n\n"@ + skill_summary,
            )
        }),
{
    let prompt = assembled_prompt(
        persona,
        skill_summary,
        forced_names,
        missing_names,
        agent_id,
        model,
        workspace_root,
        memory_context,
    );
    assert(prompt.take(persona.len() as int) =~= persona);
    if skill_summary.len() > 0 {
        let start = persona + "\n\n"@ + skill_summary;
        assert(prompt.take(start.len() as int) =~= start);
    }
}

/// Without forced skills and without memories a prompt is the one after a reset,
/// and that is the persona, the skills, the rules and the place where they run.
pub proof fn plain_prompts_are_those_after_a_reset(
    persona: Seq<char>,
    skill_summary: Seq<char>,
    missing_names: Seq<Seq<char>>,
    agent_id: Seq<char>,
    model: Seq<char>,
    workspace_root: Seq<char>,
)
    ensures
        assembled_prompt(
            persona,
            skill_summary,
            Seq::empty(),
            missing_names,
            agent_id,
            model,
            workspace_root,
            Seq::empty(),
        ) == runtime_prompt(
            skills_added(persona, skill_summary),
            model,
            agent_id,
            workspace_root,
        ),
        runtime_prompt(skills_added(persona, skill_summary), model, agent_id, workspace_root)
            == persona + (if skill_summary.len() == 0 {
            Seq::empty()
        } else {
            "\n\n"@ + skill_summary
        }) + RUNTIME_POLICY@ + model + "\n- Session: "@ + agent_id + "\n- Working directory: "@
            + workspace_root,
{
    assert(runtime_prompt(
        skills_added(persona, skill_summary),
        model,
        agent_id,
        workspace_root,
    ) =~= persona + (if skill_summary.len() == 0 {
        Seq::empty()
    } else {
        "\n\n"@ + skill_summary
    }) + RUNTIME_POLICY@ + model + "\n- Session: "@ + agent_id + "\n- Working directory: "@
        + workspace_root);
}

/// Memories stand at the end of a prompt and change nothing before them.
pub proof fn memories_stand_at_the_end(
    persona: Seq<char>,
    skill_summary: Seq<char>,
    forced_names: Seq<Seq<char>>,
    missing_names: Seq<Seq<char>>,
    agent_id: Seq<char>,
    model: Seq<char>,
    workspace_root: Seq<char>,
    memory_context: Seq<char>,
)
    requires
        memory_context.len() > 0,
    ensures
        assembled_prompt(
            persona,
            skill_summary,
            forced_names,
            missing_names,
            agent_id,
            model,
            workspace_root,
            memory_context,
        ) == assembled_prompt(
            persona,
            skill_summary,
            forced_names,
            missing_names,
            agent_id,
            model,
            workspace_root,
            Seq::empty(),
        ) + "\n\n## Relevant Memory\n"@ + memory_context,
{
}

/// A prompt holds the rules at run time, with the model, the session and the
/// working directory, whatever stands before and behind them.
pub proof fn prompts_hold_the_rules(
    persona: Seq<char>,
    skill_summary: Seq<char>,
    forced_names: Seq<Seq<char>>,
    missing_names: Seq<Seq<char>>,
    agent_id: Seq<char>,
    model: Seq<char>,
    workspace_root: Seq<char>,
    memory_context: Seq<char>,
)
    ensures
        text::contains(
            assembled_prompt(
                persona,
                skill_summary,
                forced_names,
                missing_names,
                agent_id,
                model,
                workspace_root,
                memory_context,
            ),
            RUNTIME_POLICY@ + model + "\n- Session: "@ + agent_id + "\n- Working directory: "@
                + workspace_root,
        ),
{
    let skilled = skills_added(persona, skill_summary);
    let forced = if forced_names.len() == 0 {
        skilled
    } else {
        skilled + skill_commands::forced_section(forced_names, missing_names)
    };
    let rules = RUNTIME_POLICY@ + model + "\n- Session: "@ + agent_id + "\n- Working directory: "@
        + workspace_root;
    let back = if memory_context.len() == 0 {
        Seq::empty()
    } else {
        "\n\n## Relevant Memory\n"@ + memory_context
    };
    let running = runtime_prompt(forced, model, agent_id, workspace_root);
    assert(running == forced + rules) by {
        assert(forced + rules =~= running);
    }
    text::middle_occurs(forced, rules, back);
    if memory_context.len() == 0 {
        assert(running + back =~= running);
    } else {
        assert(running + back =~= running + "\n\n## Relevant Memory\n"@ + memory_context);
    }
}

/// Every forced skill, and every one that is missing, is named in the prompt.
pub proof fn prompts_name_the_forced_skills(
    persona: Seq<char>,
    skill_summary: Seq<char>,
    forced_names: Seq<Seq<char>>,
    missing_names: Seq<Seq<char>>,
    agent_id: Seq<char>,
    model: Seq<char>,
    workspace_root: Seq<char>,
    memory_context: Seq<char>,
    i: int,
)
    requires
        forced_names.len() > 0,
    ensures
        ({
            let prompt = assembled_prompt(
                persona,
                skill_summary,
                forced_names,
                missing_names,
                agent_id,
                model,
                workspace_root,
                memory_context,
            );
            &&& 0 <= i < forced_names.len() ==> text::contains(prompt, forced_names[i])
            &&& 0 <= i < missing_names.len() ==> text::contains(prompt, missing_names[i])
        }),
{
    let skilled = skills_added(persona, skill_summary);
    let section = skill_commands::forced_section(forced_names, missing_names);
    let rules = RUNTIME_POLICY@ + model + "\n- Session: "@ + agent_id + "\n- Working directory: "@
        + workspace_root;
    let back = if memory_context.len() == 0 {
        Seq::empty()
    } else {
        "\n\n## Relevant Memory\n"@ + memory_context
    };
    let prompt = assembled_prompt(
        persona,
        skill_summary,
        forced_names,
        missing_names,
        agent_id,
        model,
        workspace_root,
        memory_context,
    );
    assert(skilled + section + (rules + back) =~= prompt);
    skill_commands::forced_skills_are_named(forced_names, missing_names, i);
    if 0 <= i < forced_names.len() {
        text::occurs_in_more(skilled, section, rules + back, forced_names[i]);
    }
    if 0 <= i < missing_names.len() {
        text::occurs_in_more(skilled, section, rules + back, missing_names[i]);
    }
}

/// What is required of a reply is said exactly where it is required.
pub proof fn requirements_are_said(must_use_web_search: bool, is_scheduled_task: bool)
    ensures
        !must_use_web_search && !is_scheduled_task ==> requirements(
            must_use_web_search,
            is_scheduled_task,
        ).len() == 0,
        must_use_web_search ==> text::starts_with(
            requirements(must_use_web_search, is_scheduled_task),
            WEB_SEARCH_SECTION@,
        ),
        is_scheduled_task ==> text::ends_with(
            requirements(must_use_web_search, is_scheduled_task),
            SCHEDULED_TASK_SECTION@,
        ),
        requirements(must_use_web_search, is_scheduled_task).len() == (if must_use_web_search {
            WEB_SEARCH_SECTION@.len()
        } else {
            0
        }) + (if is_scheduled_task {
            SCHEDULED_TASK_SECTION@.len()
        } else {
            0
        }),
{
    let said = requirements(must_use_web_search, is_scheduled_task);
    if must_use_web_search {
        assert(said.take(WEB_SEARCH_SECTION@.len() as int) =~= WEB_SEARCH_SECTION@);
    }
    if is_scheduled_task {
        assert(said.skip(said.len() - SCHEDULED_TASK_SECTION@.len()) =~= SCHEDULED_TASK_SECTION@);
    }
}

/// A command goes where it goes whatever else the message says; without one the
/// wish to install goes before the wish to remove, and what is no wish of either
/// kind goes to the model.
pub proof fn commands_go_first(
    command: SlashCommand,
    said: Seq<char>,
    other: Seq<char>,
    removal: Option<Seq<char>>,
)
    ensures
        message_route(Some(command), said, removal) == message_route(Some(command), other, None),
        !(message_route(Some(command), said, removal) is Converse),
        predicates::install_source(said) matches Some(source) ==> message_route(
            None,
            said,
            removal,
        ) == RouteModel::AnalyzeSkill(source, true),
        predicates::install_source(said) is None && removal is Some ==> message_route(
            None,
            said,
            removal,
        ) == RouteModel::RemoveSkill(removal->0),
        message_route(None, said, removal) is Converse <==> predicates::install_source(said) is None
            && removal is None && predicates::install_prefix(text::trim(said)) is None,
{
}

/// Each command leads to its own place, with what it was given.
pub proof fn commands_keep_what_they_are_given(given: String, command: SlashCommand)
    ensures
        ({
            let route = message_route(Some(command), Seq::empty(), None);
            &&& route == RouteModel::ChangeModel(given@) <==> (command matches SlashCommand::Model {
                new_model,
            } && new_model is Some && (new_model->0)@ == given@)
            &&& route is ShowModel <==> (command matches SlashCommand::Model { new_model }
                && new_model is None)
            &&& route is ShowStatus <==> command is Status
            &&& route is ListSkills <==> command is SkillList
            &&& route == RouteModel::AnalyzeSkill(given@, false) <==> (command
                matches SlashCommand::SkillAnalyze { source } && source@ == given@)
            &&& route == RouteModel::AnalyzeSkill(given@, true) <==> (command
                matches SlashCommand::SkillInstall { source } && source@ == given@)
            &&& route == RouteModel::ConfirmSkill(given@) <==> (command
                matches SlashCommand::SkillConfirm { token } && token@ == given@)
            &&& route == RouteModel::RemoveSkill(given@) <==> (command
                matches SlashCommand::SkillRemove { skill_name } && skill_name@ == given@)
            &&& route == RouteModel::ResetSession(Some(given@)) <==> (command
                matches SlashCommand::New { model_hint } && model_hint is Some && (model_hint->0)@
                == given@)
            &&& route == RouteModel::ResetSession(None) <==> command is Reset || (command
                matches SlashCommand::New { model_hint } && model_hint is None)
            &&& route is Reply <==> command is Stop || command is SkillUsageHint
        }),
{
}

/// A session that ended is never passed over, one without an end is left alone,
/// and only what the user has reset is summarised at once.
pub proof fn ended_sessions_are_cared_for(
    reason: Option<SessionResetReason>,
    has_previous: bool,
    success: bool,
)
    ensures
        care_for_previous(reason, has_previous) == PreviousSessionStep::Nothing <==> reason is None
            || !has_previous,
        care_for_previous(reason, has_previous) == PreviousSessionStep::Summarize <==> has_previous
            && reason == Some(SessionResetReason::Explicit),
        reason matches Some(why) ==> {
            &&& archived_after(why, success) == AfterSummary::Archive <==> success && why
                != SessionResetReason::Explicit
            &&& archived_after(why, success) == AfterSummary::KeepForRetry <==> !success && why
                != SessionResetReason::Explicit
        },
{
}

/// A request is the user's, ends with what was attached, in order, and begins
/// with what was said where anything was.
pub proof fn requests_hold_what_was_said(said: Seq<char>, blocks: Seq<ContentModel>)
    ensures
        asked(said, blocks).role == "user"@,
        said.len() > 0 ==> asked(said, blocks).content.len() == blocks.len() + 1 && asked(
            said,
            blocks,
        ).content[0] == ContentModel::Text(said) && asked(said, blocks).content.skip(1) == blocks,
        said.len() == 0 && blocks.len() > 0 ==> asked(said, blocks).content == blocks,
{
    if said.len() > 0 {
        assert(asked(said, blocks).content.skip(1) =~= blocks);
    }
}

/// What is left of a reply goes out as it is; silence is broken only where the
/// reply was cut short.
pub proof fn replies_go_out_as_they_are(visible: Seq<char>, stop_reason: Option<Seq<char>>)
    ensures
        visible.len() > 0 || stop_reason != Some("length"@) ==> reply_text(visible, stop_reason)
            == visible,
        visible.len() == 0 && stop_reason == Some("length"@) ==> reply_text(visible, stop_reason)
            == LENGTH_LIMIT_REPLY@,
{
}

/// The images of two contents are those of the one and then those of the other;
/// an image is attached with its data and its type, and nothing else is.
pub proof fn images_are_attached_in_order(a: Seq<ContentModel>, b: Seq<ContentModel>)
    ensures
        images_attached(a + b) == images_attached(a) + images_attached(b),
        a.len() == 1 ==> match a[0] {
            ContentModel::Image(data, media_type) => images_attached(a).len() == 1
                && images_attached(a)[0].kind == AttachmentKind::Image && images_attached(a)[0].url
                == data && images_attached(a)[0].mime_type == Some(media_type) && images_attached(
                a,
            )[0].file_name is None && images_attached(a)[0].size is None,
            _ => images_attached(a).len() == 0,
        },
    decreases b.len(),
{
    if b.len() == 0 {
        assert(a + b =~= a);
        assert(images_attached(a) + images_attached(b) =~= images_attached(a));
    } else {
        images_are_attached_in_order(a, b.drop_last());
        assert((a + b).drop_last() =~= a + b.drop_last());
        assert((a + b).last() == b.last());
        assert(images_attached(a + b) =~= images_attached(a) + images_attached(b));
    }
    if a.len() == 1 {
        assert(a.drop_last() =~= Seq::<ContentModel>::empty());
        assert(images_attached(a.drop_last()) == Seq::<AttachmentModel>::empty());
    }
}

} // verus!
