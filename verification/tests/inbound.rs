use clawhive_core::orchestrator::attachment::{Attachment, AttachmentKind};
use clawhive_core::orchestrator::inbound::{
    accumulate, after_fallback_summary, assemble_system_prompt, build_runtime_system_prompt,
    final_reply, has_tool_registered, is_scheduled_task, language_mismatch, outbound_attachments,
    policy_tools, post_reset_system_prompt, previous_session_step, reply_message,
    requires_web_search, response_token_limit, route_inbound, session_changed, tracked_turn,
    user_message, with_requirements, with_skill_summary, AfterSummary, InboundRoute,
    PreviousSessionStep, PromptParts, ReplyAddress, SessionResetReason, SlashCommand,
    LENGTH_LIMIT_REPLY, SCHEDULED_TASK_SECTION, STOP_HINT, WEB_SEARCH_SECTION,
};
use clawhive_core::orchestrator::messages::ContentBlock;
use clawhive_core::orchestrator::skill_commands::SKILL_INSTALL_USAGE_HINT;

fn strings(items: &[&str]) -> Vec<String> {
    items.iter().map(|s| s.to_string()).collect()
}

#[test]
fn commands_go_first() {
    let route = |command: SlashCommand| route_inbound(Some(command), "install skill x", None);
    assert!(matches!(
        route(SlashCommand::Model { new_model: Some("p/m".to_string()) }),
        InboundRoute::ChangeModel(m) if m == "p/m"
    ));
    assert!(matches!(
        route(SlashCommand::Model { new_model: None }),
        InboundRoute::ShowModel
    ));
    assert!(matches!(route(SlashCommand::Status), InboundRoute::ShowStatus));
    assert!(matches!(route(SlashCommand::Stop), InboundRoute::Reply(t) if t == STOP_HINT));
    assert!(matches!(
        route(SlashCommand::SkillAnalyze { source: "s".to_string() }),
        InboundRoute::AnalyzeSkill { source, install_requested: false } if source == "s"
    ));
    assert!(matches!(
        route(SlashCommand::SkillInstall { source: "s".to_string() }),
        InboundRoute::AnalyzeSkill { install_requested: true, .. }
    ));
    assert!(matches!(
        route(SlashCommand::SkillConfirm { token: "t".to_string() }),
        InboundRoute::ConfirmSkill(t) if t == "t"
    ));
    assert!(matches!(
        route(SlashCommand::SkillRemove { skill_name: "n".to_string() }),
        InboundRoute::RemoveSkill(n) if n == "n"
    ));
    assert!(matches!(route(SlashCommand::SkillList), InboundRoute::ListSkills));
    assert!(matches!(
        route(SlashCommand::SkillUsageHint { subcommand: "remove".to_string() }),
        InboundRoute::Reply(t) if t.starts_with("Usage: /skill remove")
    ));
    assert!(matches!(
        route(SlashCommand::New { model_hint: Some("m".to_string()) }),
        InboundRoute::ResetSession { model_hint: Some(m) } if m == "m"
    ));
    assert!(matches!(
        route(SlashCommand::Reset),
        InboundRoute::ResetSession { model_hint: None }
    ));
}

#[test]
fn wishes_are_read_from_the_text() {
    assert!(matches!(
        route_inbound(None, "install skill from ./demo", None),
        InboundRoute::AnalyzeSkill { source, install_requested: true } if source == "./demo"
    ));
    assert!(matches!(
        route_inbound(None, "remove the skill", Some("demo".to_string())),
        InboundRoute::RemoveSkill(name) if name == "demo"
    ));
    assert!(matches!(
        route_inbound(None, "install skill", None),
        InboundRoute::Reply(t) if t == SKILL_INSTALL_USAGE_HINT
    ));
    assert!(matches!(
        route_inbound(None, "hello", None),
        InboundRoute::Converse
    ));
}

#[test]
fn the_session_before_is_taken_care_of() {
    assert_eq!(
        previous_session_step(Some(SessionResetReason::Explicit), true),
        PreviousSessionStep::Summarize
    );
    for reason in [SessionResetReason::Idle, SessionResetReason::Daily] {
        assert_eq!(
            previous_session_step(Some(reason), true),
            PreviousSessionStep::FlushStale
        );
        assert_eq!(after_fallback_summary(reason, true), AfterSummary::Archive);
        assert_eq!(
            after_fallback_summary(reason, false),
            AfterSummary::KeepForRetry
        );
    }
    assert_eq!(
        previous_session_step(Some(SessionResetReason::Idle), false),
        PreviousSessionStep::Nothing
    );
    assert_eq!(previous_session_step(None, true), PreviousSessionStep::Nothing);
    assert_eq!(
        after_fallback_summary(SessionResetReason::Explicit, true),
        AfterSummary::Nothing
    );
}

#[test]
fn prompts_are_put_together_in_order() {
    assert_eq!(with_skill_summary("base", ""), "base");
    assert_eq!(with_skill_summary("base", "skills"), "base\n\nskills");
    let runtime = build_runtime_system_prompt("agent", "p/m", "base", "/work");
    assert!(runtime.starts_with("base\n\n## Execution Policy"));
    assert!(runtime.ends_with("- Model: p/m\n- Session: agent\n- Working directory: /work"));
    assert_eq!(
        post_reset_system_prompt("base", "", "agent", "p/m", "/work"),
        runtime
    );
    let forced = strings(&["a"]);
    let parts = PromptParts {
        persona: "base",
        skill_summary: "skills",
        forced_names: &forced,
        missing_names: &[],
        agent_id: "agent",
        model: "p/m",
        workspace_root: "/work",
        memory_context: "facts",
    };
    let prompt = assemble_system_prompt(&parts);
    let skills = prompt.find("skills").unwrap();
    let section = prompt.find("## Forced Skill").unwrap();
    let policy = prompt.find("## Execution Policy").unwrap();
    assert!(skills < section && section < policy);
    assert!(prompt.ends_with("\n\n## Relevant Memory\nfacts"));
    assert_eq!(
        with_requirements("p", true, true),
        format!("p{WEB_SEARCH_SECTION}{SCHEDULED_TASK_SECTION}")
    );
    assert_eq!(with_requirements("p", false, false), "p");
}

#[test]
fn requests_have_their_limits() {
    let tools = strings(&["web_search"]);
    assert!(requires_web_search("please use web search", &tools));
    assert!(!requires_web_search("please use web search", &[]));
    assert!(!requires_web_search("hello", &tools));
    assert!(has_tool_registered(&tools, "web_search"));
    assert!(!has_tool_registered(&tools, "web"));
    assert!(is_scheduled_task(Some("scheduled_task")));
    assert!(!is_scheduled_task(Some("chat")));
    assert!(!is_scheduled_task(None));
    assert_eq!(response_token_limit(None, false), 4096);
    assert_eq!(response_token_limit(None, true), 8192);
    assert_eq!(response_token_limit(Some(7), true), 7);
    assert_eq!(policy_tools(None), None);
    assert_eq!(policy_tools(Some(&[])), None);
    assert_eq!(policy_tools(Some(&tools)), Some(tools.clone()));
    assert_eq!(tracked_turn(4, false), Some(5));
    assert_eq!(tracked_turn(u64::MAX, false), Some(u64::MAX));
    assert_eq!(tracked_turn(4, true), None);
}

#[test]
fn what_was_said_goes_to_the_model() {
    let plain = user_message("hello".to_string(), vec![]);
    assert_eq!(plain.role, "user");
    assert_eq!(
        plain.content,
        vec![ContentBlock::Text {
            text: "hello".to_string()
        }]
    );
    let image = ContentBlock::Image {
        data: "d".to_string(),
        media_type: "image/png".to_string(),
    };
    let silent = user_message(String::new(), vec![image.clone()]);
    assert_eq!(silent.content, vec![image]);
}

#[test]
fn a_cut_reply_is_never_silent() {
    assert_eq!(final_reply("NO_REPLY", Some("length")), LENGTH_LIMIT_REPLY);
    assert_eq!(final_reply("NO_REPLY", Some("end_turn")), "");
    assert_eq!(final_reply("NO_REPLY", None), "");
    assert_eq!(final_reply(" done ", Some("length")), "done");
}

#[test]
fn replies_go_back_with_their_attachments() {
    let content = [
        ContentBlock::Text {
            text: "t".to_string(),
        },
        ContentBlock::Image {
            data: "d".to_string(),
            media_type: "image/png".to_string(),
        },
    ];
    let from_tool = Attachment {
        kind: AttachmentKind::Document,
        url: "u".to_string(),
        mime_type: None,
        file_name: Some("f".to_string()),
        size: Some(3),
    };
    let attachments = outbound_attachments(&content, vec![from_tool]);
    assert_eq!(attachments.len(), 2);
    assert_eq!(attachments[0].kind, AttachmentKind::Image);
    assert_eq!(attachments[0].url, "d");
    assert_eq!(attachments[0].mime_type.as_deref(), Some("image/png"));
    assert_eq!(attachments[1].file_name.as_deref(), Some("f"));
    let address = ReplyAddress {
        trace_id: "1".to_string(),
        channel_type: "telegram".to_string(),
        connector_id: "tg_main".to_string(),
        conversation_scope: "chat:1".to_string(),
    };
    let reply = reply_message(&address, "said".to_string(), attachments);
    assert_eq!(reply.text, "said");
    assert_eq!(reply.trace_id, "1");
    assert_eq!(reply.channel_type, "telegram");
    assert_eq!(reply.connector_id, "tg_main");
    assert_eq!(reply.conversation_scope, "chat:1");
    assert!(reply.reply_to.is_none());
    assert_eq!(reply.attachments.len(), 2);
}

#[test]
fn transcripts_and_streams() {
    assert!(session_changed(&[false, true]));
    assert!(!session_changed(&[false]));
    assert!(language_mismatch(true, false, Some("zh"), Some("en")));
    assert!(!language_mismatch(true, false, Some("zh"), Some("zh")));
    assert!(!language_mismatch(true, true, Some("zh"), Some("en")));
    assert!(!language_mismatch(false, false, Some("zh"), Some("en")));
    assert!(!language_mismatch(true, false, None, Some("en")));
    let mut so_far = "a".to_string();
    accumulate(&mut so_far, "b");
    assert_eq!(so_far, "ab");
}
