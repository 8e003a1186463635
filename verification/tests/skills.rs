use clawhive_core::orchestrator::model_change::{
    agent_config_path, check_model_name, current_model_reply, handle_model_change,
    model_changed_reply, model_unchanged_reply, settle_edit, with_primary_model, ModelChangeError,
    YamlEdit,
};
use clawhive_core::orchestrator::registry::{
    enabled_agents, registered_personas, registers_web_search, workspaces_to_make, AgentEntry,
};
use clawhive_core::orchestrator::skill_commands::{
    compute_merged_permissions, forced_allowed_tools, forced_skill_names, forced_skill_section,
    install_command, install_reason, installed_reply, merge_permissions, missing_skills,
    next_confirm_action, request_permissions, skill_analysis_reply, skill_usage_hint,
    ApprovalDecision, ConfirmAction, ConfirmEvent, InstallRefusal, PendingInstall, Permissions,
    SkillEntry,
};
use clawhive_core::orchestrator::tool_access::{
    grant_description, grant_reason, inherit_variables, settle_grant, tool_for_name, AgentTool,
    GrantStep,
};
use clawhive_core::token_set::TokenSet;

fn strings(items: &[&str]) -> Vec<String> {
    items.iter().map(|s| s.to_string()).collect()
}

fn nothing() -> Permissions {
    Permissions {
        fs_read: vec![],
        fs_write: vec![],
        network_allow: vec![],
        commands: vec![],
        env: vec![],
        services: vec![],
    }
}

fn network(host: &str) -> Permissions {
    Permissions {
        network_allow: strings(&[host]),
        ..nothing()
    }
}

fn skill(name: &str, permissions: Option<Permissions>) -> SkillEntry {
    SkillEntry {
        name: name.to_string(),
        permissions,
    }
}

fn names(items: &[&str]) -> TokenSet {
    let mut set = TokenSet::new();
    for item in items {
        set = set.with(item.to_string());
    }
    set
}

#[test]
fn compute_merged_permissions_merges_all_when_no_forced() {
    let active_skills = vec![
        skill("skill-a", Some(network("api.a.com:443"))),
        skill("skill-b", Some(network("api.b.com:443"))),
    ];
    let merged = compute_merged_permissions(&active_skills, None);

    let perms = merged.expect("compute_merged_permissions returns Some when skills have perms");
    assert!(perms.network_allow.contains(&"api.a.com:443".to_string()));
    assert!(perms.network_allow.contains(&"api.b.com:443".to_string()));
}

#[test]
fn normal_mode_should_not_use_skill_permissions() {
    let active_skills = vec![skill(
        "restricted-skill",
        Some(Permissions {
            commands: strings(&["sh"]),
            fs_read: strings(&["$SKILL_DIR/**"]),
            ..nothing()
        }),
    )];
    assert!(active_skills[0].permissions.is_some());

    let merged_permissions = request_permissions(&active_skills, None);

    assert!(
        merged_permissions.is_none(),
        "normal mode must not use skill permissions"
    );
}

#[test]
fn forced_skill_mode_applies_skill_permissions() {
    let active_skills = vec![skill(
        "restricted-skill",
        Some(Permissions {
            commands: strings(&["sh"]),
            ..network("api.example.com:443")
        }),
    )];
    let forced = strings(&["restricted-skill"]);
    let merged = compute_merged_permissions(&active_skills, Some(&forced));

    let perms = merged.expect("forced skill mode must return permissions");
    assert_eq!(perms.commands, vec!["sh".to_string()]);
    assert!(perms
        .network_allow
        .contains(&"api.example.com:443".to_string()));
    assert!(request_permissions(&active_skills, Some(&forced)).is_some());
}

#[test]
fn forced_skill_without_permissions_returns_none() {
    let active_skills = vec![skill("no-perms-skill", None)];
    let forced = strings(&["no-perms-skill"]);
    let merged = compute_merged_permissions(&active_skills, Some(&forced));

    assert!(
        merged.is_none(),
        "skill without permissions should not trigger External origin"
    );
}

#[test]
fn merged_lists_are_sorted_and_without_repetition() {
    let a = Permissions {
        fs_read: strings(&["b", "a"]),
        env: strings(&["X"]),
        services: strings(&["s1"]),
        ..nothing()
    };
    let b = Permissions {
        fs_read: strings(&["a", "c"]),
        fs_write: strings(&["w"]),
        env: strings(&["X"]),
        services: strings(&["s2"]),
        ..nothing()
    };
    let merged = merge_permissions(&[a, b]).unwrap();
    assert_eq!(merged.fs_read, strings(&["a", "b", "c"]));
    assert_eq!(merged.fs_write, strings(&["w"]));
    assert_eq!(merged.env, strings(&["X"]));
    assert_eq!(merged.services, strings(&["s1", "s2"]));
    assert!(merge_permissions(&[]).is_none());
}

#[test]
fn forced_skills_are_named_behind_the_command() {
    assert_eq!(
        forced_skill_names(" /skill a,b,,c rest"),
        Some(strings(&["a", "b", "c"]))
    );
    assert_eq!(forced_skill_names("/skill ,"), None);
    assert_eq!(forced_skill_names("/skill"), None);
    assert_eq!(forced_skill_names("skill a"), None);
}

#[test]
fn missing_skills_are_told() {
    let skills = [skill("a", None)];
    let wanted = strings(&["a", "b"]);
    let missing = missing_skills(&skills, &wanted);
    assert_eq!(missing, strings(&["b"]));
    let section = forced_skill_section(&wanted, &missing);
    assert!(section.contains("You must follow only these skills for this request: a, b."));
    assert!(section.ends_with("Missing forced skills: b. Tell the user these were not found."));
    let single = forced_skill_section(&strings(&["a"]), &[]);
    assert!(single.contains("You must follow skill 'a' for this request"));
    assert!(!single.contains("Missing"));
}

#[test]
fn forcing_leaves_only_the_execution_of_commands() {
    let forced = strings(&["a"]);
    assert_eq!(
        forced_allowed_tools(Some(&forced), None),
        Some(strings(&["execute_command"]))
    );
    assert_eq!(
        forced_allowed_tools(Some(&forced), Some(strings(&["read_file", "execute_command"]))),
        Some(strings(&["execute_command"]))
    );
    assert_eq!(
        forced_allowed_tools(Some(&forced), Some(strings(&["read_file"]))),
        Some(vec![])
    );
    assert_eq!(
        forced_allowed_tools(None, Some(strings(&["read_file"]))),
        Some(strings(&["read_file"]))
    );
}

#[test]
fn usage_is_explained() {
    assert!(skill_usage_hint("analyze").starts_with("Usage: /skill analyze <url-or-path>"));
    assert!(skill_usage_hint("install").starts_with("Usage: /skill install <url-or-path>"));
    assert!(skill_usage_hint("confirm").starts_with("Usage: /skill confirm <token>"));
    assert!(skill_usage_hint("remove").starts_with("Usage: /skill remove <skill-name>"));
    assert!(skill_usage_hint("?").starts_with("Usage:\n  /skill analyze"));
    assert_eq!(
        skill_analysis_reply(true, "report", "tok"),
        "Install request analyzed.\n\nreport\n\nTo continue, run: /skill confirm tok"
    );
    assert!(skill_analysis_reply(false, "r", "t").starts_with("Analyze complete."));
}

fn pending(high_risk: bool) -> ConfirmEvent {
    ConfirmEvent::TokenTaken {
        pending: Some(PendingInstall {
            user_scope: "user:1".to_string(),
            conversation_scope: "chat:1".to_string(),
            skill_name: "demo".to_string(),
            high_risk,
        }),
    }
}

#[test]
fn an_install_goes_step_by_step() {
    let next = |event: &ConfirmEvent| next_confirm_action(event, "user:1", "chat:1", true);
    assert_eq!(
        next(&ConfirmEvent::Asked {
            scope_allowed: true
        }),
        ConfirmAction::TakeToken
    );
    assert_eq!(next(&pending(false)), ConfirmAction::Install);
    assert_eq!(next(&pending(true)), ConfirmAction::AskApproval);
    for decision in [ApprovalDecision::AllowOnce, ApprovalDecision::AlwaysAllow] {
        let decided = ConfirmEvent::Decided {
            decision: Some(decision),
        };
        assert_eq!(next(&decided), ConfirmAction::Install);
    }
}

#[test]
fn every_refusal_of_an_install_has_its_cause() {
    let next =
        |event: &ConfirmEvent, can_ask: bool| next_confirm_action(event, "user:1", "chat:1", can_ask);
    assert_eq!(
        next(
            &ConfirmEvent::Asked {
                scope_allowed: false
            },
            true
        ),
        ConfirmAction::Refuse(InstallRefusal::NotAuthorized)
    );
    assert_eq!(
        next(&ConfirmEvent::TokenTaken { pending: None }, true),
        ConfirmAction::Refuse(InstallRefusal::InvalidToken)
    );
    assert_eq!(
        next_confirm_action(&pending(false), "user:2", "chat:1", true),
        ConfirmAction::Refuse(InstallRefusal::ForeignToken)
    );
    assert_eq!(
        next_confirm_action(&pending(false), "user:1", "chat:2", true),
        ConfirmAction::Refuse(InstallRefusal::ForeignToken)
    );
    assert_eq!(
        next(&pending(true), false),
        ConfirmAction::Refuse(InstallRefusal::NoApprovalChannel)
    );
    for decision in [Some(ApprovalDecision::Deny), None] {
        assert_eq!(
            next(&ConfirmEvent::Decided { decision }, true),
            ConfirmAction::Refuse(InstallRefusal::Denied)
        );
    }
    assert_eq!(
        InstallRefusal::NotAuthorized.text(),
        "You are not authorized to install skills in this environment."
    );
    assert_eq!(
        InstallRefusal::InvalidToken.text(),
        "Invalid or expired skill install confirmation token."
    );
    assert_eq!(
        InstallRefusal::ForeignToken.text(),
        "This token belongs to a different user or conversation."
    );
    assert_eq!(
        InstallRefusal::NoApprovalChannel.text(),
        "High-risk skill install requires approval but no approval UI is available."
    );
    assert_eq!(InstallRefusal::Denied.text(), "Skill install denied by user.");
}

#[test]
fn an_install_is_reported() {
    assert_eq!(install_command("demo"), "skill install demo");
    assert_eq!(
        install_reason("demo"),
        "High-risk skill install requires approval: demo"
    );
    assert_eq!(
        installed_reply("demo", "/skills/demo", 3, true, &[]),
        "Installed skill 'demo' to /skills/demo (findings: 3, high-risk: true)."
    );
    let with_env = installed_reply("demo", "/t", 0, false, &strings(&["A", "B"]));
    assert!(with_env.starts_with("Installed skill 'demo' to /t (findings: 0, high-risk: false)."));
    assert!(with_env.contains("Missing environment variables: A, B"));
}

#[test]
fn models_are_named_by_provider_and_model() {
    let providers = names(&["openai", "anthropic"]);
    let models = strings(&["m1", "m2"]);
    assert_eq!(
        check_model_name("openai/m1", &providers, Some(&models)).ok(),
        Some(("openai".to_string(), "m1".to_string()))
    );
    // A model's name may hold a slash itself.
    assert_eq!(
        check_model_name("openai/a/b", &providers, None).ok(),
        Some(("openai".to_string(), "a/b".to_string()))
    );
    assert!(check_model_name("openai/other", &providers, Some(&[])).is_ok());
    assert!(matches!(
        check_model_name("openai", &providers, None),
        Err(ModelChangeError::Format)
    ));
    assert!(matches!(
        check_model_name("/m1", &providers, None),
        Err(ModelChangeError::EmptyPart)
    ));
    match check_model_name("other/m1", &providers, None) {
        Err(ModelChangeError::UnknownProvider {
            provider,
            available,
        }) => {
            assert_eq!(provider, "other");
            assert_eq!(available, "anthropic, openai");
        }
        other => panic!("unexpected {other:?}"),
    }
    let error = check_model_name("openai/m3", &providers, Some(&models)).unwrap_err();
    assert_eq!(
        error.message(),
        "provider \"openai\" 中未找到模型 \"m3\"\n可用模型: m1, m2"
    );
}

#[test]
fn a_model_change_is_written_to_the_configuration() {
    let providers = names(&["openai"]);
    let yaml = "name: a\nmodel_policy:\n  primary: openai/old\n  fallbacks: []\n";
    let changed = handle_model_change("openai/new", &providers, None, yaml).unwrap();
    let value: serde_yaml::Value = serde_yaml::from_str(&changed).unwrap();
    assert_eq!(
        value
            .get("model_policy")
            .and_then(|p| p.get("primary"))
            .and_then(|p| p.as_str()),
        Some("openai/new")
    );
    assert_eq!(value.get("name").and_then(|n| n.as_str()), Some("a"));

    assert!(matches!(
        handle_model_change("nothing", &providers, None, yaml),
        Err(ModelChangeError::Format)
    ));
    assert!(matches!(
        with_primary_model("name: a\n", "openai/new"),
        Err(ModelChangeError::PrimaryMissing)
    ));
    assert!(matches!(
        with_primary_model("a: [", "openai/new"),
        Err(ModelChangeError::Unreadable)
    ));
    assert_eq!(
        settle_edit(YamlEdit::Written("y".to_string())).ok(),
        Some("y".to_string())
    );
    match settle_edit(YamlEdit::Unwritable("why".to_string())) {
        Err(ModelChangeError::Unwritable { detail }) => assert_eq!(detail, "why"),
        other => panic!("unexpected {other:?}"),
    }
}

#[test]
fn replies_on_models() {
    assert_eq!(agent_config_path("main"), "config/agents.d/main.yaml");
    assert_eq!(
        model_changed_reply("openai/m1"),
        "✅ 模型已切换为 **openai/m1**（已保存）"
    );
    assert_eq!(model_unchanged_reply("why"), "❌ why");
    assert_eq!(
        current_model_reply("openai/m1", "key"),
        "Model: **openai/m1**\nSession: **key**"
    );
}

#[test]
fn tools_are_told_by_name() {
    assert!(matches!(tool_for_name("memory_search"), AgentTool::MemorySearch));
    assert!(matches!(tool_for_name("memory_get"), AgentTool::MemoryGet));
    assert!(matches!(tool_for_name("memory_write"), AgentTool::MemoryWrite));
    assert!(matches!(tool_for_name("memory_forget"), AgentTool::MemoryForget));
    assert!(matches!(
        tool_for_name("execute_command"),
        AgentTool::ExecuteCommand
    ));
    assert!(matches!(tool_for_name("grant_access"), AgentTool::GrantAccess));
    assert!(matches!(tool_for_name("web_fetch"), AgentTool::Registered));
}

#[test]
fn declared_variables_are_inherited_once() {
    let mut inherited = strings(&["A"]);
    inherit_variables(&mut inherited, &strings(&["B", "A", "B", "C"]));
    assert_eq!(inherited, strings(&["A", "B", "C"]));
}

#[test]
fn access_is_granted_by_a_person() {
    let description = grant_description(Some("/tmp"), Some("rw"));
    assert_eq!(description, "grant_rw /tmp");
    assert_eq!(
        grant_reason(&description),
        "Agent requests access: grant_rw /tmp"
    );
    assert!(matches!(
        settle_grant(true, Some(ApprovalDecision::AllowOnce), &description),
        GrantStep::Grant
    ));
    match settle_grant(true, Some(ApprovalDecision::Deny), &description) {
        GrantStep::Refuse(said) => assert_eq!(said, "Access grant denied by user: grant_rw /tmp"),
        GrantStep::Grant => panic!("a denied grant"),
    }
    match settle_grant(true, None, &description) {
        GrantStep::Refuse(said) => assert_eq!(
            said,
            "Access grant timed out (no response within 60s): grant_rw /tmp"
        ),
        GrantStep::Grant => panic!("a grant without an answer"),
    }
}

#[test]
fn agents_and_their_workspaces() {
    let agents = [
        AgentEntry {
            agent_id: "a".to_string(),
            enabled: true,
        },
        AgentEntry {
            agent_id: "b".to_string(),
            enabled: false,
        },
    ];
    let enabled = enabled_agents(&agents);
    assert_eq!(enabled.sorted(), strings(&["a"]));
    assert_eq!(
        registered_personas(&strings(&["b", "a", "c"]), &enabled),
        strings(&["a"])
    );
    assert!(registers_web_search(Some("SECRET-REDACTED")));
    assert!(!registers_web_search(None));
    assert_eq!(
        workspaces_to_make(&names(&["a"]), &strings(&["a", "b"])),
        strings(&["b"])
    );
}
