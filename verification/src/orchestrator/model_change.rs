//! Changing the model of an agent on request.

use crate::orchestrator::tool_loop;
use crate::text;
use crate::token_set;
use crate::token_set::TokenSet;
use vstd::prelude::*;

verus! {

/// Why a model was not changed.
#[derive(Clone, Debug, PartialEq, Eq)]
pub enum ModelChangeError {
    /// The name is not of the form `provider/model`.
    Format,
    /// The provider or the model is empty.
    EmptyPart,
    UnknownProvider { provider: String, available: String },
    UnknownModel { provider: String, model: String, available: String },
    /// The agent's configuration cannot be read as YAML.
    Unreadable,
    /// The agent's configuration names no primary model.
    PrimaryMissing,
    /// The changed configuration cannot be written as YAML.
    Unwritable { detail: String },
}

/// What an error says.
pub enum ChangeFault {
    Format,
    EmptyPart,
    UnknownProvider(Seq<char>, Seq<char>),
    UnknownModel(Seq<char>, Seq<char>, Seq<char>),
    Unreadable,
    PrimaryMissing,
    Unwritable(Seq<char>),
}

impl View for ModelChangeError {
    type V = ChangeFault;

    open spec fn view(&self) -> ChangeFault {
        match *self {
            ModelChangeError::Format => ChangeFault::Format,
            ModelChangeError::EmptyPart => ChangeFault::EmptyPart,
            ModelChangeError::UnknownProvider { provider, available } =>
                ChangeFault::UnknownProvider(provider@, available@),
            ModelChangeError::UnknownModel { provider, model, available } =>
                ChangeFault::UnknownModel(provider@, model@, available@),
            ModelChangeError::Unreadable => ChangeFault::Unreadable,
            ModelChangeError::PrimaryMissing => ChangeFault::PrimaryMissing,
            ModelChangeError::Unwritable { detail } => ChangeFault::Unwritable(detail@),
        }
    }
}

pub open spec fn fault_text(fault: ChangeFault) -> Seq<char> {
    match fault {
        ChangeFault::Format => "格式错误，请使用 provider/model 格式，如: openai/gpt-5.2"@,
        ChangeFault::EmptyPart => "provider 和 model 不能为空，请使用格式: provider/model"@,
        ChangeFault::UnknownProvider(provider, available) => "未找到 provider \""@ + provider
            + "\"\n可用 providers: "@ + available,
        ChangeFault::UnknownModel(provider, model, available) => "provider \""@ + provider
            + "\" 中未找到模型 \""@ + model + "\"\n可用模型: "@ + available,
        ChangeFault::Unreadable => "解析 agent YAML 失败"@,
        ChangeFault::PrimaryMissing => "agent YAML 中未找到 model_policy.primary 字段"@,
        ChangeFault::Unwritable(detail) => detail,
    }
}

impl ModelChangeError {
    pub fn message(&self) -> (r: String)
        ensures
            r@ == fault_text(self@),
    {
        match self {
            ModelChangeError::Format => "格式错误，请使用 provider/model 格式，如: openai/gpt-5.2".to_owned(),
            ModelChangeError::EmptyPart => "provider 和 model 不能为空，请使用格式: provider/model".to_owned(),
            ModelChangeError::UnknownProvider { provider, available } => {
                let mut out = "未找到 provider \"".to_owned();
                out.append(provider.as_str());
                out.append("\"\n可用 providers: ");
                out.append(available.as_str());
                out
            },
            ModelChangeError::UnknownModel { provider, model, available } => {
                let mut out = "provider \"".to_owned();
                out.append(provider.as_str());
                out.append("\" 中未找到模型 \"");
                out.append(model.as_str());
                out.append("\"\n可用模型: ");
                out.append(available.as_str());
                out
            },
            ModelChangeError::Unreadable => "解析 agent YAML 失败".to_owned(),
            ModelChangeError::PrimaryMissing => "agent YAML 中未找到 model_policy.primary 字段".to_owned(),
            ModelChangeError::Unwritable { detail } => detail.clone(),
        }
    }
}

// Checking the name

pub open spec fn provider_part(name: Seq<char>) -> Seq<char> {
    name.take(text::first_index(name, '/')->0)
}

pub open spec fn model_part(name: Seq<char>) -> Seq<char> {
    name.skip(text::first_index(name, '/')->0 + 1)
}

/// What is wrong with a new model's name: it is `provider/model` with both parts
/// given, the provider is a known one, and the model is among its models where
/// those are known.
pub open spec fn name_fault(
    name: Seq<char>,
    providers: Set<Seq<char>>,
    models: Option<Seq<Seq<char>>>,
) -> Option<ChangeFault> {
    if text::first_index(name, '/') is None {
        Some(ChangeFault::Format)
    } else if provider_part(name).len() == 0 || model_part(name).len() == 0 {
        Some(ChangeFault::EmptyPart)
    } else if !providers.contains(provider_part(name)) {
        Some(
            ChangeFault::UnknownProvider(
                provider_part(name),
                text::joined(token_set::in_order(providers), ", "@),
            ),
        )
    } else {
        match models {
            None => None,
            Some(list) => if list.len() > 0 && !list.contains(model_part(name)) {
                Some(
                    ChangeFault::UnknownModel(
                        provider_part(name),
                        model_part(name),
                        text::joined(list, ", "@),
                    ),
                )
            } else {
                None
            },
        }
    }
}

/// Checks the name of a new model against the known providers, and against the
/// models of its provider where those are known.
pub fn check_model_name(name: &str, providers: &TokenSet, models: Option<&[String]>) -> (r: Result<
    (String, String),
    ModelChangeError,
>)
    ensures
        match r {
            Ok((provider, model)) => {
                &&& name_fault(name@, providers@, tool_loop::list_views(models)) is None
                &&& provider@ == provider_part(name@)
                &&& model@ == model_part(name@)
            },
            Err(e) => name_fault(name@, providers@, tool_loop::list_views(models)) == Some(e@),
        },
{
    match tool_loop::provider_and_model(name) {
        None => Err(ModelChangeError::Format),
        Some((provider, model)) => {
            if provider.as_str().is_empty() || model.as_str().is_empty() {
                return Err(ModelChangeError::EmptyPart);
            }
            if !providers.contains(provider.as_str()) {
                let available = text::join(providers.sorted().as_slice(), ", ");
                return Err(ModelChangeError::UnknownProvider { provider, available });
            }
            match models {
                None => {},
                Some(list) => {
                    assert(text::views(list@).len() == list@.len());
                    if list.len() > 0 {
                        match token_set::position_of(list, model.as_str()) {
                            None => {
                                let available = text::join(list, ", ");
                                return Err(
                                    ModelChangeError::UnknownModel { provider, model, available },
                                );
                            },
                            Some(i) => {
                                assert(text::views(list@)[i as int] == model@);
                            },
                        }
                    }
                },
            }
            Ok((provider, model))
        },
    }
}

// Changing the configuration

/// How the change of a value in a YAML text ended.
#[derive(Clone, Debug)]
pub enum YamlEdit {
    Written(String),
    Unreadable,
    Missing,
    Unwritable(String),
}

/// What the change came to.
pub enum YamlEditModel {
    Written(Seq<char>),
    Unreadable,
    Missing,
    Unwritable(Seq<char>),
}

impl View for YamlEdit {
    type V = YamlEditModel;

    open spec fn view(&self) -> YamlEditModel {
        match *self {
            YamlEdit::Written(s) => YamlEditModel::Written(s@),
            YamlEdit::Unreadable => YamlEditModel::Unreadable,
            YamlEdit::Missing => YamlEditModel::Missing,
            YamlEdit::Unwritable(s) => YamlEditModel::Unwritable(s@),
        }
    }
}

/// What `serde_yaml` makes of a YAML text when the value under a key of the
/// mapping under another key is replaced by a string.
pub uninterp spec fn yaml_with_text(
    yaml: Seq<char>,
    outer: Seq<char>,
    inner: Seq<char>,
    value: Seq<char>,
) -> YamlEditModel;

/// `serde_yaml::from_str`, `Value::get_mut` with the two keys, and
/// `serde_yaml::to_string` of the value with the string in place: the text read
/// as YAML, changed in one place, and written again. The result is a function of
/// the four texts; how the YAML is laid out is left unsaid.
#[verifier::external_body]
fn edit_yaml(yaml: &str, outer: &str, inner: &str, value: &str) -> (r: YamlEdit)
    ensures
        r@ == yaml_with_text(yaml@, outer@, inner@, value@),
{
    let Ok(mut document) = serde_yaml::from_str::<serde_yaml::Value>(yaml) else {
        return YamlEdit::Unreadable;
    };
    let Some(slot) = document.get_mut(outer).and_then(|table| table.get_mut(inner)) else {
        return YamlEdit::Missing;
    };
    *slot = serde_yaml::Value::String(value.to_string());
    match serde_yaml::to_string(&document) {
        Ok(text) => YamlEdit::Written(text),
        Err(error) => YamlEdit::Unwritable(error.to_string()),
    }
}

pub open spec fn edit_result(edit: YamlEditModel) -> Result<Seq<char>, ChangeFault> {
    match edit {
        YamlEditModel::Written(s) => Ok(s),
        YamlEditModel::Unreadable => Err(ChangeFault::Unreadable),
        YamlEditModel::Missing => Err(ChangeFault::PrimaryMissing),
        YamlEditModel::Unwritable(s) => Err(ChangeFault::Unwritable(s)),
    }
}

pub open spec fn result_view(r: Result<String, ModelChangeError>) -> Result<
    Seq<char>,
    ChangeFault,
> {
    match r {
        Ok(s) => Ok(s@),
        Err(e) => Err(e@),
    }
}

/// The changed configuration, or why there is none.
pub fn settle_edit(edit: YamlEdit) -> (r: Result<String, ModelChangeError>)
    ensures
        result_view(r) == edit_result(edit@),
{
    match edit {
        YamlEdit::Written(s) => Ok(s),
        YamlEdit::Unreadable => Err(ModelChangeError::Unreadable),
        YamlEdit::Missing => Err(ModelChangeError::PrimaryMissing),
        YamlEdit::Unwritable(detail) => Err(ModelChangeError::Unwritable { detail }),
    }
}

/// The configuration of an agent with another primary model.
pub fn with_primary_model(yaml: &str, new_model: &str) -> (r: Result<String, ModelChangeError>)
    ensures
        result_view(r) == edit_result(
            yaml_with_text(yaml@, "model_policy"@, "primary"@, new_model@),
        ),
{
    settle_edit(edit_yaml(yaml, "model_policy", "primary", new_model))
}

/// Checks a new model and changes the configuration of the agent to it: the
/// new configuration, or why there is none. A configuration is written only for a
/// name without fault.
pub fn handle_model_change(
    new_model: &str,
    providers: &TokenSet,
    models: Option<&[String]>,
    agent_yaml: &str,
) -> (r: Result<String, ModelChangeError>)
    ensures
        result_view(r) == (match name_fault(new_model@, providers@, tool_loop::list_views(models)) {
            Some(fault) => Err(fault),
            None => edit_result(
                yaml_with_text(agent_yaml@, "model_policy"@, "primary"@, new_model@),
            ),
        }),
{
    match check_model_name(new_model, providers, models) {
        Err(e) => Err(e),
        Ok(_) => with_primary_model(agent_yaml, new_model),
    }
}

/// The file of an agent's configuration, below the workspace.
pub fn agent_config_path(agent_id: &str) -> (r: String)
    ensures
        r@ == "config/agents.d/"@ + agent_id@ + ".yaml"@,
{
    let mut out = "config/agents.d/".to_owned();
    out.append(agent_id);
    out.append(".yaml");
    out
}

// Replies

/// The reply when the model was changed.
pub fn model_changed_reply(new_model: &str) -> (r: String)
    ensures
        r@ == "✅ 模型已切换为 **"@ + new_model@ + "**（已保存）"@,
{
    let mut out = "✅ 模型已切换为 **".to_owned();
    out.append(new_model);
    out.append("**（已保存）");
    out
}

/// The reply when it was not.
pub fn model_unchanged_reply(reason: &str) -> (r: String)
    ensures
        r@ == "❌ "@ + reason@,
{
    let mut out = "❌ ".to_owned();
    out.append(reason);
    out
}

/// The reply that tells the model in use.
pub fn current_model_reply(model: &str, session_key: &str) -> (r: String)
    ensures
        r@ == "Model: **"@ + model@ + "**\nSession: **"@ + session_key@ + "**"@,
{
    let mut out = "Model: **".to_owned();
    out.append(model);
    out.append("**\nSession: **");
    out.append(session_key);
    out.append("**");
    out
}

/// A name is its provider, a slash and its model, which may hold further slashes.
/// It is without fault exactly where both are given, the provider is known, and
/// the model is among the provider's where those are known.
pub proof fn names_are_provider_and_model(
    provider: Seq<char>,
    model: Seq<char>,
    providers: Set<Seq<char>>,
    models: Option<Seq<Seq<char>>>,
)
    requires
        forall|i: int| 0 <= i < provider.len() ==> #[trigger] provider[i] != '/',
    ensures
        name_fault(provider, providers, models) == Some(ChangeFault::Format),
        provider_part(provider + "/"@ + model) == provider,
        model_part(provider + "/"@ + model) == model,
        name_fault(provider + "/"@ + model, providers, models) is None <==> provider.len() > 0
            && model.len() > 0 && providers.contains(provider) && (models matches Some(list)
            ==> list.len() == 0 || list.contains(model)),
        provider.len() == 0 || model.len() == 0 <==> name_fault(
            provider + "/"@ + model,
            providers,
            models,
        ) == Some(ChangeFault::EmptyPart),
{
    reveal_strlit("/");
    let name = provider + "/"@ + model;
    text::first_index_is_first(provider, '/');
    text::first_index_is_first(name, '/');
    assert(name[provider.len() as int] == '/');
    let at = text::first_index(name, '/')->0;
    if at < provider.len() {
        assert(name[at] == provider[at]);
    }
    assert(name.take(at) =~= provider);
    assert(name.skip(at + 1) =~= model);
}

/// What is refused is named, with all that could be had in its place.
pub proof fn refusals_name_what_could_be_had(
    provider: Seq<char>,
    model: Seq<char>,
    list: Seq<Seq<char>>,
    i: int,
)
    requires
        0 <= i < list.len(),
    ensures
        ({
            let available = text::joined(list, ", "@);
            let no_provider = fault_text(ChangeFault::UnknownProvider(provider, available));
            let no_model = fault_text(ChangeFault::UnknownModel(provider, model, available));
            &&& text::contains(no_provider, provider) && text::contains(no_provider, list[i])
            &&& text::contains(no_model, provider) && text::contains(no_model, model)
            &&& text::contains(no_model, list[i])
        }),
{
    let none = Seq::<char>::empty();
    let available = text::joined(list, ", "@);
    text::joined_holds_its_parts(list, ", "@, i);
    let no_provider = fault_text(ChangeFault::UnknownProvider(provider, available));
    let a = "未找到 provider \""@;
    let b = "\"\n可用 providers: "@;
    text::middle_occurs(a, provider, b + available);
    assert(a + provider + (b + available) =~= no_provider);
    text::occurs_in_more(a + provider + b, available, none, list[i]);
    assert(a + provider + b + available + none =~= no_provider);
    let no_model = fault_text(ChangeFault::UnknownModel(provider, model, available));
    let c = "provider \""@;
    let d = "\" 中未找到模型 \""@;
    let e = "\"\n可用模型: "@;
    text::middle_occurs(c, provider, d + model + e + available);
    assert(c + provider + (d + model + e + available) =~= no_model);
    text::middle_occurs(c + provider + d, model, e + available);
    assert(c + provider + d + model + (e + available) =~= no_model);
    text::occurs_in_more(c + provider + d + model + e, available, none, list[i]);
    assert(c + provider + d + model + e + available + none =~= no_model);
}

/// What was written is handed on as it was written, and nothing else is.
pub proof fn only_what_was_written_is_handed_on(edit: YamlEditModel, s: Seq<char>)
    ensures
        edit_result(edit) == Ok::<Seq<char>, ChangeFault>(s) <==> edit == YamlEditModel::Written(s),
        edit is Unreadable <==> edit_result(edit) == Err::<Seq<char>, ChangeFault>(
            ChangeFault::Unreadable,
        ),
        edit is Missing <==> edit_result(edit) == Err::<Seq<char>, ChangeFault>(
            ChangeFault::PrimaryMissing,
        ),
        edit == YamlEditModel::Unwritable(s) <==> edit_result(edit) == Err::<
            Seq<char>,
            ChangeFault,
        >(ChangeFault::Unwritable(s)),
{
}

} // verus!
