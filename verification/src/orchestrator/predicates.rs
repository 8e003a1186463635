//! What texts of users and models ask for or give away.

use crate::text;
use vstd::prelude::*;

verus! {

pub const SLOW_LLM_ROUND_WARN_MS: u64 = 30_000;

pub const SLOW_TOOL_EXEC_WARN_MS: u64 = 10_000;

pub fn is_slow_latency_ms(duration_ms: u64, threshold_ms: u64) -> (r: bool)
    ensures
        r == (duration_ms >= threshold_ms),
{
    duration_ms >= threshold_ms
}

/// The messages of history that a turn takes along when nothing else is set.
pub const DEFAULT_HISTORY_MESSAGES: usize = 10;

/// How many messages of history a turn takes along: two for each turn that the
/// agent's policy allows.
pub fn history_message_limit(limit_history_turns: Option<u32>) -> (r: usize)
    ensures
        r == (match limit_history_turns {
            Some(turns) => if 2 * turns > usize::MAX {
                usize::MAX as int
            } else {
                2 * turns
            },
            None => DEFAULT_HISTORY_MESSAGES as int,
        }),
{
    match limit_history_turns {
        Some(turns) => match (turns as usize).checked_mul(2) {
            Some(n) => n,
            None => usize::MAX,
        },
        None => DEFAULT_HISTORY_MESSAGES,
    }
}

/// When a session is reset.
#[derive(Clone, Copy, Debug, PartialEq, Eq, Structural)]
pub struct SessionResetPolicy {
    pub idle_minutes: Option<u64>,
    pub daily_at_hour: Option<u8>,
}

pub open spec fn first_given<A>(a: Option<A>, b: Option<A>) -> Option<A> {
    if a is Some {
        a
    } else {
        b
    }
}

/// The policy of an agent: what it sets itself, and for the rest the default.
pub fn session_reset_policy_for(
    agent: Option<SessionResetPolicy>,
    default_policy: SessionResetPolicy,
) -> (r: SessionResetPolicy)
    ensures
        agent is None ==> r == default_policy,
        agent matches Some(own) ==> {
            &&& r.idle_minutes == first_given(own.idle_minutes, default_policy.idle_minutes)
            &&& r.daily_at_hour == first_given(own.daily_at_hour, default_policy.daily_at_hour)
        },
{
    match agent {
        None => default_policy,
        Some(own) => SessionResetPolicy {
            idle_minutes: if own.idle_minutes.is_some() {
                own.idle_minutes
            } else {
                default_policy.idle_minutes
            },
            daily_at_hour: if own.daily_at_hour.is_some() {
                own.daily_at_hour
            } else {
                default_policy.daily_at_hour
            },
        },
    }
}

// Replies that are not to be sent

pub open spec fn cut_prefix(s: Seq<char>, p: Seq<char>) -> Seq<char> {
    if text::starts_with(s, p) {
        s.skip(p.len() as int)
    } else {
        s
    }
}

pub open spec fn cut_suffix(s: Seq<char>, p: Seq<char>) -> Seq<char> {
    if text::ends_with(s, p) {
        s.take(s.len() - p.len())
    } else {
        s
    }
}

/// `s` without the mark at its start and at its end, trimmed.
pub open spec fn without_mark(s: Seq<char>, mark: Seq<char>) -> Seq<char> {
    text::trim(cut_suffix(cut_prefix(s, mark), mark))
}

/// What of a reply is to be sent: nothing of a reply that is only a mark, and
/// otherwise the reply without marks at its ends.
pub open spec fn visible_reply(s: Seq<char>) -> Seq<char> {
    let trimmed = text::trim(s);
    if trimmed == "NO_REPLY"@ || trimmed == "HEARTBEAT_OK"@ {
        Seq::empty()
    } else {
        without_mark(without_mark(trimmed, "NO_REPLY"@), "HEARTBEAT_OK"@)
    }
}

fn cut_mark(s: &[char], mark: &str) -> (r: String)
    ensures
        r@ == without_mark(s@, mark@),
{
    let m = text::chars_of(mark);
    let n: usize = s.len();
    let rest = if text::starts_with_chars(s, m.as_slice()) {
        let part = vstd::slice::slice_subrange(s, m.len(), n);
        assert(part@ == s@.skip(m@.len() as int));
        part
    } else {
        s
    };
    let k: usize = rest.len();
    let body = if text::ends_with_chars(rest, m.as_slice()) {
        let part = vstd::slice::slice_subrange(rest, 0, k - m.len());
        assert(part@ == rest@.take(rest@.len() - m@.len()));
        part
    } else {
        rest
    };
    text::string_of(text::trim_chars(body))
}

/// Filters the marks of replies that are not to be sent.
pub fn filter_no_reply(reply: &str) -> (r: String)
    ensures
        r@ == visible_reply(reply@),
{
    let trimmed = text::trimmed(reply);
    if text::same_text(trimmed.as_str(), "NO_REPLY") || text::same_text(
        trimmed.as_str(),
        "HEARTBEAT_OK",
    ) {
        return String::new();
    }
    let once = cut_mark(text::chars_of(trimmed.as_str()).as_slice(), "NO_REPLY");
    cut_mark(text::chars_of(once.as_str()).as_slice(), "HEARTBEAT_OK")
}

/// What is sent of a reply has no white space at its ends.
pub proof fn visible_reply_is_trimmed(s: Seq<char>)
    ensures
        text::trim(visible_reply(s)) == visible_reply(s),
{
    let trimmed = text::trim(s);
    let once = without_mark(trimmed, "NO_REPLY"@);
    text::trim_idempotent(cut_suffix(cut_prefix(once, "HEARTBEAT_OK"@), "HEARTBEAT_OK"@));
}

// Requests to install a skill

pub open spec fn is_source_gap(c: char) -> bool {
    c == ' ' || c == ':' || c == '\u{ff1a}'
}

/// `s` without blanks and colons at its start.
pub open spec fn after_gap(s: Seq<char>) -> Seq<char>
    decreases s.len(),
{
    if s.len() > 0 && is_source_gap(s[0]) {
        after_gap(s.drop_first())
    } else {
        s
    }
}

/// The source that follows a request, where one does.
pub open spec fn source_in(rest: Seq<char>) -> Option<Seq<char>> {
    let source = text::trim(after_gap(rest));
    if source.len() == 0 {
        None
    } else {
        Some(source)
    }
}

/// The words with which a trimmed text asks to install a skill.
pub open spec fn install_prefix(t: Seq<char>) -> Option<Seq<char>> {
    let lower = text::lowered(t);
    if text::starts_with(lower, "install skill from"@) {
        Some("install skill from"@)
    } else if text::starts_with(lower, "install this skill"@) {
        Some("install this skill"@)
    } else if text::starts_with(lower, "install skill"@) {
        Some("install skill"@)
    } else if text::starts_with(t, "安装这个skill:"@) {
        Some("安装这个skill:"@)
    } else if text::starts_with(t, "安装这个 skill:"@) {
        Some("安装这个 skill:"@)
    } else if text::starts_with(t, "安装skill:"@) {
        Some("安装skill:"@)
    } else if text::starts_with(t, "安装 skill:"@) {
        Some("安装 skill:"@)
    } else if text::starts_with(t, "安装技能:"@) {
        Some("安装技能:"@)
    } else if text::starts_with(t, "安装这个skill"@) {
        Some("安装这个skill"@)
    } else if text::starts_with(t, "安装这个 skill"@) {
        Some("安装这个 skill"@)
    } else if text::starts_with(t, "安装skill"@) {
        Some("安装skill"@)
    } else if text::starts_with(t, "安装 skill"@) {
        Some("安装 skill"@)
    } else if text::starts_with(t, "安装技能"@) {
        Some("安装技能"@)
    } else {
        None
    }
}

/// The source of the skill that a text asks to install.
pub open spec fn install_source(value: Seq<char>) -> Option<Seq<char>> {
    let t = text::trim(value);
    match install_prefix(t) {
        None => None,
        Some(prefix) => source_in(t.skip(prefix.len() as int)),
    }
}

fn prefix_len(s: &[char], prefix: &str) -> (r: Option<usize>)
    ensures
        match r {
            Some(n) => text::starts_with(s@, prefix@) && n == prefix@.len() && n <= s@.len(),
            None => !text::starts_with(s@, prefix@),
        },
{
    let p = text::chars_of(prefix);
    if text::starts_with_chars(s, p.as_slice()) {
        Some(p.len())
    } else {
        None
    }
}

fn find_install_prefix(t: &[char]) -> (r: Option<usize>)
    ensures
        match r {
            Some(n) => install_prefix(t@) is Some && n == install_prefix(t@)->0.len() && n
                <= t@.len(),
            None => install_prefix(t@) is None,
        },
{
    let lowered = text::to_lowered(text::string_of(t).as_str());
    let lower_chars = text::chars_of(lowered.as_str());
    let lower = lower_chars.as_slice();
    let mut found = prefix_len(lower, "install skill from");
    if found.is_none() {
        found = prefix_len(lower, "install this skill");
    }
    if found.is_none() {
        found = prefix_len(lower, "install skill");
    }
    if found.is_none() {
        found = prefix_len(t, "安装这个skill:");
    }
    if found.is_none() {
        found = prefix_len(t, "安装这个 skill:");
    }
    if found.is_none() {
        found = prefix_len(t, "安装skill:");
    }
    if found.is_none() {
        found = prefix_len(t, "安装 skill:");
    }
    if found.is_none() {
        found = prefix_len(t, "安装技能:");
    }
    if found.is_none() {
        found = prefix_len(t, "安装这个skill");
    }
    if found.is_none() {
        found = prefix_len(t, "安装这个 skill");
    }
    if found.is_none() {
        found = prefix_len(t, "安装skill");
    }
    if found.is_none() {
        found = prefix_len(t, "安装 skill");
    }
    if found.is_none() {
        found = prefix_len(t, "安装技能");
    }
    found
}

/// The source after so many characters of a text.
pub fn extract_source_after_prefix(t: &[char], prefix: usize) -> (r: Option<String>)
    requires
        prefix <= t@.len(),
    ensures
        text::opt_view(r) == source_in(t@.skip(prefix as int)),
{
    let n: usize = t.len();
    let mut i: usize = prefix;
    while i < n && (t[i] == ' ' || t[i] == ':' || t[i] == '\u{ff1a}')
        invariant
            prefix <= i <= n,
            n == t@.len(),
            after_gap(t@.skip(prefix as int)) == after_gap(t@.skip(i as int)),
        decreases n - i,
    {
        assert(t@.skip(i as int).drop_first() == t@.skip(i + 1));
        i = i + 1;
    }
    let rest = vstd::slice::slice_subrange(t, i, n);
    assert(rest@ == t@.skip(i as int));
    let source = text::trim_chars(rest);
    if source.len() == 0 {
        None
    } else {
        Some(text::string_of(source))
    }
}

pub fn has_install_skill_intent_prefix(value: &str) -> (r: bool)
    ensures
        r == (install_prefix(text::trim(value@)) is Some),
{
    let chars = text::chars_of(value);
    find_install_prefix(text::trim_chars(chars.as_slice())).is_some()
}

pub fn detect_skill_install_intent(value: &str) -> (r: Option<String>)
    ensures
        text::opt_view(r) == install_source(value@),
{
    let chars = text::chars_of(value);
    let t = text::trim_chars(chars.as_slice());
    match find_install_prefix(t) {
        None => None,
        Some(n) => extract_source_after_prefix(t, n),
    }
}

pub fn is_skill_install_intent_without_source(value: &str) -> (r: bool)
    ensures
        r == (install_prefix(text::trim(value@)) is Some && install_source(value@) is None),
{
    has_install_skill_intent_prefix(value) && detect_skill_install_intent(value).is_none()
}

/// A source that was found has no white space, and no colon or blank, in front.
pub proof fn install_source_is_clean(value: Seq<char>)
    ensures
        install_source(value) matches Some(source) ==> {
            &&& source.len() > 0
            &&& text::trim(source) == source
        },
{
    let t = text::trim(value);
    match install_prefix(t) {
        None => {},
        Some(prefix) => {
            text::trim_idempotent(after_gap(t.skip(prefix.len() as int)));
        },
    }
}

// Requests to search the web

pub open spec fn asks_web_search(value: Seq<char>) -> bool {
    let t = text::trim(value);
    &&& t.len() > 0
    &&& {
        ||| text::contains(text::lowered(t), "web_search"@)
        ||| text::contains(text::lowered(t), "web search"@)
        ||| text::contains(t, "联网搜索"@)
        ||| text::contains(t, "上网搜索"@)
        ||| text::contains(t, "实时搜索"@)
    }
}

pub fn is_explicit_web_search_request(value: &str) -> (r: bool)
    ensures
        r == asks_web_search(value@),
{
    let trimmed = text::trimmed(value);
    let t = trimmed.as_str();
    if t.is_empty() {
        return false;
    }
    let lowered = text::to_lowered(t);
    let lower = lowered.as_str();
    text::text_contains(lower, "web_search") || text::text_contains(lower, "web search")
        || text::text_contains(t, "联网搜索") || text::text_contains(t, "上网搜索")
        || text::text_contains(t, "实时搜索")
}

pub open spec fn wants_web_search_reminder(
    must_use_web_search: bool,
    web_search_reminder_injected: bool,
    web_search_called: bool,
    tool_use_count: int,
) -> bool {
    must_use_web_search && !web_search_reminder_injected && !web_search_called && tool_use_count
        == 0
}

pub fn should_inject_web_search_reminder(
    must_use_web_search: bool,
    web_search_reminder_injected: bool,
    web_search_called: bool,
    tool_use_count: usize,
) -> (r: bool)
    ensures
        r == wants_web_search_reminder(
            must_use_web_search,
            web_search_reminder_injected,
            web_search_called,
            tool_use_count as int,
        ),
{
    must_use_web_search && !web_search_reminder_injected && !web_search_called && tool_use_count
        == 0
}

// Replies that claim, announce or promise

/// A text in lower case claims that something was done.
pub open spec fn claims_action(lower: Seq<char>) -> bool {
    ||| text::contains(lower, "i ran"@)
    ||| text::contains(lower, "i executed"@)
    ||| text::contains(lower, "i wrote"@)
    ||| text::contains(lower, "i saved"@)
    ||| text::contains(lower, "i updated"@)
    ||| text::contains(lower, "i created"@)
    ||| text::contains(lower, "i called"@)
    ||| text::contains(lower, "已执行"@)
    ||| text::contains(lower, "已运行"@)
    ||| text::contains(lower, "已写入"@)
    ||| text::contains(lower, "已保存"@)
    ||| text::contains(lower, "已更新"@)
    ||| text::contains(lower, "已创建"@)
    ||| text::contains(lower, "已经完成"@)
}

pub fn lowered_claims_action(lower: &str) -> (r: bool)
    ensures
        r == claims_action(lower@),
{
    text::text_contains(lower, "i ran") || text::text_contains(lower, "i executed")
        || text::text_contains(lower, "i wrote") || text::text_contains(lower, "i saved")
        || text::text_contains(lower, "i updated") || text::text_contains(lower, "i created")
        || text::text_contains(lower, "i called") || text::text_contains(lower, "已执行")
        || text::text_contains(lower, "已运行") || text::text_contains(lower, "已写入")
        || text::text_contains(lower, "已保存") || text::text_contains(lower, "已更新")
        || text::text_contains(lower, "已创建") || text::text_contains(lower, "已经完成")
}

/// How often a reply is sent back at most for one kind of fault.
pub const MAX_REPLY_RETRIES: u32 = 2;

/// A scheduled task is sent back when it claims an action and no tool was ever called.
pub open spec fn fabricated_reply(
    is_scheduled_task: bool,
    retry_count: int,
    total_tool_calls: int,
    current_tool_calls: int,
    lower: Seq<char>,
) -> bool {
    &&& is_scheduled_task
    &&& retry_count < MAX_REPLY_RETRIES
    &&& total_tool_calls == 0
    &&& current_tool_calls == 0
    &&& claims_action(lower)
}

pub fn should_retry_fabricated_scheduled_response(
    is_scheduled_task: bool,
    retry_count: u32,
    total_tool_calls: usize,
    current_tool_calls: usize,
    response_text: &str,
) -> (r: bool)
    ensures
        r == fabricated_reply(
            is_scheduled_task,
            retry_count as int,
            total_tool_calls as int,
            current_tool_calls as int,
            text::lowercase(response_text@),
        ),
{
    lowered_is_fabricated(
        is_scheduled_task,
        retry_count,
        total_tool_calls,
        current_tool_calls,
        text::to_lowercase(response_text).as_str(),
    )
}

/// Whether a reply, in lower case, of a scheduled task is sent back.
pub fn lowered_is_fabricated(
    is_scheduled_task: bool,
    retry_count: u32,
    total_tool_calls: usize,
    current_tool_calls: usize,
    lower: &str,
) -> (r: bool)
    ensures
        r == fabricated_reply(
            is_scheduled_task,
            retry_count as int,
            total_tool_calls as int,
            current_tool_calls as int,
            lower@,
        ),
{
    is_scheduled_task && retry_count < MAX_REPLY_RETRIES && total_tool_calls == 0
        && current_tool_calls == 0 && lowered_claims_action(lower)
}

/// A text in lower case announces what is to come.
pub open spec fn announces_intent(lower: Seq<char>) -> bool {
    ||| text::contains(lower, "let me "@)
    ||| text::contains(lower, "now let me"@)
    ||| text::contains(lower, "i will "@)
    ||| text::contains(lower, "i'll "@)
    ||| text::contains(lower, "let me write"@)
    ||| text::contains(lower, "let me compile"@)
    ||| text::contains(lower, "let me create"@)
    ||| text::contains(lower, "let me generate"@)
    ||| text::contains(lower, "让我"@)
    ||| text::contains(lower, "我来"@)
    ||| text::contains(lower, "接下来"@)
}

pub fn lowered_announces_intent(lower: &str) -> (r: bool)
    ensures
        r == announces_intent(lower@),
{
    text::text_contains(lower, "let me ") || text::text_contains(lower, "now let me")
        || text::text_contains(lower, "i will ") || text::text_contains(lower, "i'll ")
        || text::text_contains(lower, "let me write") || text::text_contains(
        lower,
        "let me compile",
    ) || text::text_contains(lower, "let me create") || text::text_contains(
        lower,
        "let me generate",
    ) || text::text_contains(lower, "让我") || text::text_contains(lower, "我来")
        || text::text_contains(lower, "接下来")
}

/// The bytes below which a reply counts as short.
pub const SHORT_REPLY_BYTES: usize = 500;

/// A short reply that announces something after tools were called is sent back:
/// a scheduled task twice at most, a conversation once.
pub open spec fn incomplete_reply(
    is_scheduled_task: bool,
    retry_count: int,
    total_tool_calls: int,
    response: Seq<char>,
    lower: Seq<char>,
) -> bool {
    &&& retry_count < if is_scheduled_task {
        2int
    } else {
        1int
    }
    &&& total_tool_calls > 0
    &&& text::utf8_len(response) < SHORT_REPLY_BYTES
    &&& announces_intent(lower)
}

pub fn should_retry_incomplete_scheduled_thought(
    is_scheduled_task: bool,
    retry_count: u32,
    total_tool_calls: usize,
    response_text: &str,
) -> (r: bool)
    ensures
        r == incomplete_reply(
            is_scheduled_task,
            retry_count as int,
            total_tool_calls as int,
            response_text@,
            text::lowercase(response_text@),
        ),
{
    lowered_is_incomplete(
        is_scheduled_task,
        retry_count,
        total_tool_calls,
        response_text,
        text::to_lowercase(response_text).as_str(),
    )
}

/// Whether a reply, which is `lower` in lower case, is sent back.
pub fn lowered_is_incomplete(
    is_scheduled_task: bool,
    retry_count: u32,
    total_tool_calls: usize,
    response_text: &str,
    lower: &str,
) -> (r: bool)
    ensures
        r == incomplete_reply(
            is_scheduled_task,
            retry_count as int,
            total_tool_calls as int,
            response_text@,
            lower@,
        ),
{
    let max_retries: u32 = if is_scheduled_task {
        2
    } else {
        1
    };
    retry_count < max_retries && total_tool_calls > 0 && text::byte_len(response_text)
        < SHORT_REPLY_BYTES && lowered_announces_intent(lower)
}

#[derive(Clone, Copy, Debug, PartialEq, Eq, Structural)]
pub enum EmptyPromiseVerdict {
    Evident,
    Inconclusive,
    No,
}

/// A trimmed text ends as if more were to follow.
pub open spec fn ends_open(t: Seq<char>) -> bool {
    ||| text::ends_with(t, ":"@)
    ||| text::ends_with(t, "\u{ff1a}"@)
    ||| text::ends_with(t, "——"@)
    ||| text::ends_with(t, "—"@)
    ||| text::ends_with(t, "..."@)
    ||| text::ends_with(t, "\u{2026}"@)
    ||| text::ends_with(t, "\u{2026}\u{2026}"@)
}

/// A trimmed text ends as a sentence does.
pub open spec fn ends_sentence(t: Seq<char>) -> bool {
    ||| text::ends_with(t, "."@)
    ||| text::ends_with(t, "!"@)
    ||| text::ends_with(t, "?"@)
    ||| text::ends_with(t, "\u{3002}"@)
    ||| text::ends_with(t, "\u{ff01}"@)
    ||| text::ends_with(t, "\u{ff1f}"@)
    ||| text::ends_with(t, "\""@)
    ||| text::ends_with(t, "\u{201d}"@)
    ||| text::ends_with(t, ")"@)
    ||| text::ends_with(t, "\u{ff09}"@)
}

/// Whether a reply promises content without giving it, as far as its end shows.
pub open spec fn promise_verdict(
    retry_count: int,
    current_tool_calls: int,
    response: Seq<char>,
) -> EmptyPromiseVerdict {
    let t = text::trim(response);
    if retry_count >= MAX_REPLY_RETRIES || current_tool_calls > 0 || text::utf8_len(t)
        >= SHORT_REPLY_BYTES {
        EmptyPromiseVerdict::No
    } else if ends_open(t) {
        EmptyPromiseVerdict::Evident
    } else if ends_sentence(t) {
        EmptyPromiseVerdict::No
    } else {
        EmptyPromiseVerdict::Inconclusive
    }
}

pub fn detect_empty_promise_structural(
    retry_count: u32,
    current_tool_calls: usize,
    response_text: &str,
) -> (r: EmptyPromiseVerdict)
    ensures
        r == promise_verdict(retry_count as int, current_tool_calls as int, response_text@),
{
    if retry_count >= MAX_REPLY_RETRIES || current_tool_calls > 0 {
        return EmptyPromiseVerdict::No;
    }
    let trimmed = text::trimmed(response_text);
    let t = trimmed.as_str();
    if text::byte_len(t) >= SHORT_REPLY_BYTES {
        return EmptyPromiseVerdict::No;
    }
    let open = text::text_ends_with(t, ":") || text::text_ends_with(t, "\u{ff1a}")
        || text::text_ends_with(t, "——") || text::text_ends_with(t, "—") || text::text_ends_with(
        t,
        "...",
    ) || text::text_ends_with(t, "\u{2026}") || text::text_ends_with(t, "\u{2026}\u{2026}");
    if open {
        return EmptyPromiseVerdict::Evident;
    }
    let closed = text::text_ends_with(t, ".") || text::text_ends_with(t, "!")
        || text::text_ends_with(t, "?") || text::text_ends_with(t, "\u{3002}")
        || text::text_ends_with(t, "\u{ff01}") || text::text_ends_with(t, "\u{ff1f}")
        || text::text_ends_with(t, "\"") || text::text_ends_with(t, "\u{201d}")
        || text::text_ends_with(t, ")") || text::text_ends_with(t, "\u{ff09}");
    if closed {
        EmptyPromiseVerdict::No
    } else {
        EmptyPromiseVerdict::Inconclusive
    }
}

/// A reply that was sent back as often as allowed is never found to be a promise.
pub proof fn promises_are_retried_at_most_twice(
    retry_count: int,
    current_tool_calls: int,
    response: Seq<char>,
)
    requires
        retry_count >= MAX_REPLY_RETRIES,
    ensures
        promise_verdict(retry_count, current_tool_calls, response) == EmptyPromiseVerdict::No,
{
}

/// What ends with an exclamation or a question mark promises nothing.
pub proof fn exclamations_and_questions_are_complete(
    retry_count: int,
    current_tool_calls: int,
    response: Seq<char>,
)
    requires
        text::trim(response).len() > 0,
        text::trim(response).last() == '!' || text::trim(response).last() == '?',
    ensures
        promise_verdict(retry_count, current_tool_calls, response) == EmptyPromiseVerdict::No,
{
    let t = text::trim(response);
    last_char_decides(t);
}

proof fn last_char_decides(t: Seq<char>)
    requires
        t.len() > 0,
    ensures
        ends_open(t) ==> t.last() == ':' || t.last() == '\u{ff1a}' || t.last() == '—' || t.last()
            == '.' || t.last() == '\u{2026}',
        t.last() == ':' || t.last() == '\u{ff1a}' || t.last() == '—' || t.last() == '\u{2026}'
            ==> ends_open(t),
        ends_sentence(t) <==> t.last() == '.' || t.last() == '!' || t.last() == '?' || t.last()
            == '\u{3002}' || t.last() == '\u{ff01}' || t.last() == '\u{ff1f}' || t.last() == '"'
            || t.last() == '\u{201d}' || t.last() == ')' || t.last() == '\u{ff09}',
        ends_open(t) && t.last() == '.' ==> t.len() >= 3 && t[t.len() - 2] == '.' && t[t.len() - 3]
            == '.',
        t.len() >= 3 && t.last() == '.' && t[t.len() - 2] == '.' && t[t.len() - 3] == '.'
            ==> ends_open(t),
{
    reveal_strlit(":");
    reveal_strlit("\u{ff1a}");
    reveal_strlit("——");
    reveal_strlit("—");
    reveal_strlit("...");
    reveal_strlit("\u{2026}");
    reveal_strlit("\u{2026}\u{2026}");
    reveal_strlit(".");
    reveal_strlit("!");
    reveal_strlit("?");
    reveal_strlit("\u{3002}");
    reveal_strlit("\u{ff01}");
    reveal_strlit("\u{ff1f}");
    reveal_strlit("\"");
    reveal_strlit("\u{201d}");
    reveal_strlit(")");
    reveal_strlit("\u{ff09}");
    end_is(t, ":"@);
    end_is(t, "\u{ff1a}"@);
    end_is(t, "——"@);
    end_is(t, "—"@);
    end_is(t, "..."@);
    end_is(t, "\u{2026}"@);
    end_is(t, "\u{2026}\u{2026}"@);
    end_is(t, "."@);
    end_is(t, "!"@);
    end_is(t, "?"@);
    end_is(t, "\u{3002}"@);
    end_is(t, "\u{ff01}"@);
    end_is(t, "\u{ff1f}"@);
    end_is(t, "\""@);
    end_is(t, "\u{201d}"@);
    end_is(t, ")"@);
    end_is(t, "\u{ff09}"@);
    if text::ends_with(t, "..."@) {
        assert(t[t.len() - 3 + 0] == "..."@[0]);
        assert(t[t.len() - 3 + 1] == "..."@[1]);
    }
    if t.len() >= 3 && t.last() == '.' && t[t.len() - 2] == '.' && t[t.len() - 3] == '.' {
        assert(t.skip(t.len() - 3) =~= "..."@);
    }
}

proof fn end_is(t: Seq<char>, p: Seq<char>)
    requires
        t.len() > 0,
        p.len() > 0,
    ensures
        text::ends_with(t, p) ==> t.len() >= p.len() && t.last() == p[p.len() - 1] && forall|k: int|
            0 <= k < p.len() ==> t[t.len() - p.len() + k] == #[trigger] p[k],
        p.len() == 1 && t.last() == p[0] ==> text::ends_with(t, p),
{
    if text::ends_with(t, p) {
        let tail = t.skip(t.len() - p.len());
        assert forall|k: int| 0 <= k < p.len() implies t[t.len() - p.len() + k]
            == #[trigger] p[k] by {
            assert(tail[k] == p[k]);
        }
        assert(t[t.len() - p.len() + (p.len() - 1)] == p[p.len() - 1]);
    }
    if p.len() == 1 && t.last() == p[0] {
        assert(t.skip(t.len() - 1) =~= p);
    }
}

/// A short reply to which no tool belongs, and that can be sent back still, is a
/// promise exactly where it ends with a colon, a dash or an ellipsis, and none
/// where it ends with another mark that closes a sentence; its last characters
/// decide, and nothing before them.
pub proof fn the_end_of_a_reply_decides(response: Seq<char>, retry_count: int)
    requires
        0 <= retry_count < MAX_REPLY_RETRIES,
        text::utf8_len(text::trim(response)) < SHORT_REPLY_BYTES,
        text::trim(response).len() > 0,
    ensures
        ({
            let t = text::trim(response);
            let end = t.last();
            let dots = t.len() >= 3 && end == '.' && t[t.len() - 2] == '.' && t[t.len() - 3] == '.';
            let open = end == ':' || end == '\u{ff1a}' || end == '—' || end == '\u{2026}' || dots;
            let closed = end == '.' || end == '!' || end == '?' || end == '\u{3002}' || end
                == '\u{ff01}' || end == '\u{ff1f}' || end == '"' || end == '\u{201d}' || end == ')'
                || end == '\u{ff09}';
            let verdict = promise_verdict(retry_count, 0, response);
            &&& open <==> verdict == EmptyPromiseVerdict::Evident
            &&& closed && !open <==> verdict == EmptyPromiseVerdict::No
            &&& !closed && !open <==> verdict == EmptyPromiseVerdict::Inconclusive
        }),
{
    last_char_decides(text::trim(response));
}

pub const PROMISE_CLASSIFIER_SYSTEM: &'static str =
    "You are a binary classifier. Answer only YES or NO.";

pub open spec fn promise_question(response: Seq<char>) -> Seq<char> {
    "An AI assistant produced the following response to a user:\n---\n"@ + response
        + "\n---\nDid the assistant promise or announce that it would produce content (compile, write, generate, summarize, etc.) without actually providing that content in the response? Answer only YES or NO."@
}

/// The question whether a reply promises content without giving it.
pub fn empty_promise_prompt(response_text: &str) -> (r: String)
    ensures
        r@ == promise_question(response_text@),
{
    let mut out = "An AI assistant produced the following response to a user:\n---\n".to_owned();
    out.append(response_text);
    out.append(
        "\n---\nDid the assistant promise or announce that it would produce content (compile, write, generate, summarize, etc.) without actually providing that content in the response? Answer only YES or NO.",
    );
    out
}

/// Whether the answer, trimmed and in upper case, is a yes.
pub fn upper_says_yes(upper: &str) -> (r: bool)
    ensures
        r == text::starts_with(upper@, "YES"@),
{
    text::text_starts_with(upper, "YES")
}

/// Whether the answer to the question is a yes.
pub fn says_yes(answer: &str) -> (r: bool)
    ensures
        r == text::starts_with(text::uppercase(text::trim(answer@)), "YES"@),
{
    upper_says_yes(text::to_uppercase(text::trimmed(answer).as_str()).as_str())
}

// What is sent, asked for and sent back

/// A reply without marks at its ends is sent as it is, but for white space around
/// it; and one that is a mark alone is not sent.
pub proof fn replies_without_marks_are_sent(a: Seq<char>, t: Seq<char>, b: Seq<char>)
    requires
        forall|i: int| 0 <= i < a.len() ==> text::whitespace(#[trigger] a[i]),
        forall|i: int| 0 <= i < b.len() ==> text::whitespace(#[trigger] b[i]),
        t.len() > 0,
        !text::whitespace(t[0]),
        !text::whitespace(t.last()),
    ensures
        !text::starts_with(t, "NO_REPLY"@) && !text::ends_with(t, "NO_REPLY"@)
            && !text::starts_with(t, "HEARTBEAT_OK"@) && !text::ends_with(t, "HEARTBEAT_OK"@)
            ==> visible_reply(a + t + b) == t,
        t == "NO_REPLY"@ || t == "HEARTBEAT_OK"@ ==> visible_reply(a + t + b).len() == 0,
{
    let none = Seq::<char>::empty();
    text::trim_of_padded(a, t, b);
    text::trim_of_padded(none, t, none);
    assert(none + t + none =~= t);
    assert("NO_REPLY"@.take("NO_REPLY"@.len() as int) =~= "NO_REPLY"@);
    assert("HEARTBEAT_OK"@.take("HEARTBEAT_OK"@.len() as int) =~= "HEARTBEAT_OK"@);
}

/// A mark before or behind a reply is cut off, with the white space between, and
/// the reply is sent.
pub proof fn marks_at_the_ends_are_cut(mark: Seq<char>, t: Seq<char>)
    requires
        mark == "NO_REPLY"@ || mark == "HEARTBEAT_OK"@,
        t.len() > 0,
        !text::whitespace(t[0]),
        !text::whitespace(t.last()),
        !text::starts_with(t, "NO_REPLY"@),
        !text::ends_with(t, "NO_REPLY"@),
        !text::starts_with(t, "HEARTBEAT_OK"@),
        !text::ends_with(t, "HEARTBEAT_OK"@),
    ensures
        visible_reply(mark + "\n"@ + t) == t,
        visible_reply(t + "\n"@ + mark) == t,
{
    reveal_strlit("NO_REPLY");
    reveal_strlit("HEARTBEAT_OK");
    reveal_strlit("\n");
    let none = Seq::<char>::empty();
    let gap = "\n"@;
    let no = "NO_REPLY"@;
    let ok = "HEARTBEAT_OK"@;
    let front = mark + gap + t;
    let back = t + gap + mark;
    text::trim_of_padded(none, t, none);
    assert(none + t + none =~= t);
    text::trim_of_padded(none, front, none);
    assert(none + front + none =~= front);
    text::trim_of_padded(none, back, none);
    assert(none + back + none =~= back);
    text::trim_of_padded(gap, t, none);
    assert(gap + t + none =~= gap + t);
    text::trim_of_padded(none, t, gap);
    assert(none + t + gap =~= t + gap);
    assert(front.len() > mark.len() && back.len() > mark.len());
    assert(no[0] == 'N' && ok[0] == 'H' && no[7] == 'Y' && ok[11] == 'K');
    assert(front.take(mark.len() as int) =~= mark);
    assert(front.skip(mark.len() as int) =~= gap + t);
    assert(back.skip(back.len() - mark.len()) =~= mark);
    assert(back.take(back.len() - mark.len()) =~= t + gap);
    behind_a_gap(mark, t, no);
    behind_a_gap(mark, t, ok);
    before_a_gap(mark, t, no);
    before_a_gap(mark, t, ok);
}

proof fn behind_a_gap(mark: Seq<char>, t: Seq<char>, other: Seq<char>)
    requires
        mark.len() > 0,
        other.len() > 0,
        t.len() > 0,
        !text::starts_with(t, other),
        !text::ends_with(t, other),
        forall|i: int| 0 <= i < other.len() ==> #[trigger] other[i] != '\n',
    ensures
        !text::ends_with(mark + "\n"@ + t, other),
        !text::starts_with("\n"@ + t, other),
        !text::ends_with("\n"@ + t, other),
        text::starts_with(mark + "\n"@ + t, other) ==> other.len() <= mark.len() && mark[0]
            == other[0],
{
    reveal_strlit("\n");
    let s = mark + "\n"@ + t;
    let u = "\n"@ + t;
    if text::ends_with(s, other) {
        let from = s.len() - other.len();
        if other.len() <= t.len() {
            assert(t.skip(t.len() - other.len()) =~= s.skip(from));
        } else {
            assert(s.skip(from)[mark.len() - from] == s[mark.len() as int]);
            if from > mark.len() {
                assert(false);
            }
        }
    }
    if text::starts_with(u, other) {
        assert(u.take(other.len() as int)[0] == u[0]);
    }
    if text::ends_with(u, other) {
        let from = u.len() - other.len();
        if other.len() <= t.len() {
            assert(t.skip(t.len() - other.len()) =~= u.skip(from));
        } else {
            assert(u.skip(from)[0] == u[0]);
        }
    }
    if text::starts_with(s, other) {
        assert(s.take(other.len() as int)[0] == s[0]);
        if other.len() > mark.len() {
            assert(s.take(other.len() as int)[mark.len() as int] == s[mark.len() as int]);
        }
    }
}

proof fn before_a_gap(mark: Seq<char>, t: Seq<char>, other: Seq<char>)
    requires
        mark.len() > 0,
        other.len() > 0,
        t.len() > 0,
        !text::starts_with(t, other),
        !text::ends_with(t, other),
        forall|i: int| 0 <= i < other.len() ==> #[trigger] other[i] != '\n',
    ensures
        !text::starts_with(t + "\n"@ + mark, other),
        !text::starts_with(t + "\n"@, other),
        !text::ends_with(t + "\n"@, other),
        text::ends_with(t + "\n"@ + mark, other) ==> other.len() <= mark.len() && mark.last()
            == other.last(),
{
    reveal_strlit("\n");
    let s = t + "\n"@ + mark;
    let u = t + "\n"@;
    let n = other.len() as int;
    if text::starts_with(s, other) {
        if n <= t.len() {
            assert(t.take(n) =~= s.take(n));
        } else {
            assert(s.take(n)[t.len() as int] == s[t.len() as int]);
        }
    }
    if text::starts_with(u, other) {
        if n <= t.len() {
            assert(t.take(n) =~= u.take(n));
        } else {
            assert(u.take(n)[t.len() as int] == u[t.len() as int]);
        }
    }
    if text::ends_with(u, other) {
        assert(u.skip(u.len() - n)[n - 1] == u[u.len() - 1]);
    }
    if text::ends_with(s, other) {
        let from = s.len() - n;
        assert(s.skip(from)[n - 1] == s[s.len() - 1]);
        if n > mark.len() {
            assert(s.skip(from)[t.len() - from] == s[t.len() as int]);
        }
    }
}

proof fn lowered_in_parts(a: Seq<char>, b: Seq<char>)
    ensures
        text::lowered(a + b) == text::lowered(a) + text::lowered(b),
{
    assert(text::lowered(a + b) =~= text::lowered(a) + text::lowered(b));
}

proof fn gaps_are_passed(c: char, source: Seq<char>)
    requires
        is_source_gap(c),
        source.len() > 0,
        !is_source_gap(source[0]),
    ensures
        after_gap(seq![c] + source) == source,
        after_gap(seq![c, ' '] + source) == source,
{
    let one = seq![c] + source;
    assert(one.drop_first() =~= source);
    let two = seq![c, ' '] + source;
    let rest = two.drop_first();
    assert(rest[0] == ' ');
    assert(rest.drop_first() =~= source);
    assert(after_gap(source) == source);
    assert(after_gap(rest) == source);
}

/// A request to install a skill names its source, whatever the case of its words
/// and whether a blank or a colon stands between.
pub proof fn requests_name_their_source(words: Seq<char>, c: char, source: Seq<char>)
    requires
        text::lowered(words) == "install skill from"@ || text::lowered(words)
            == "install this skill"@,
        c == ' ' || c == ':' || c == '\u{ff1a}',
        source.len() > 0,
        !is_source_gap(source[0]),
        !text::whitespace(source[0]),
        !text::whitespace(source.last()),
    ensures
        install_source(words + seq![c] + source) == Some(source),
        install_source(words + seq![c, ' '] + source) == Some(source),
        install_source(words) is None,
        install_prefix(words) is Some,
{
    reveal_strlit("install skill from");
    reveal_strlit("install this skill");
    let none = Seq::<char>::empty();
    let lower = text::lowered(words);
    assert(words.len() == 18);
    assert(lower[0] == 'i' && lower[17] != ' ');
    text::lower_keeps_class(words[0]);
    text::lower_keeps_class(words[17]);
    assert(lower[0] == text::ascii_lower(words[0]));
    assert(lower[17] == text::ascii_lower(words[17]));
    assert(!text::whitespace(words[0]) && !text::whitespace(words[17]));
    text::trim_of_padded(none, words, none);
    assert(none + words + none =~= words);
    text::trim_of_padded(none, source, none);
    assert(none + source + none =~= source);
    gaps_are_passed(c, source);
    let short = words + seq![c] + source;
    let long = words + seq![c, ' '] + source;
    text::trim_of_padded(none, short, none);
    assert(none + short + none =~= short);
    text::trim_of_padded(none, long, none);
    assert(none + long + none =~= long);
    assert(short.skip(18) =~= seq![c] + source);
    assert(long.skip(18) =~= seq![c, ' '] + source);
    prefix_of_words(words, seq![c] + source);
    prefix_of_words(words, seq![c, ' '] + source);
    prefix_of_words(words, none);
    assert(words + (seq![c] + source) =~= short);
    assert(words + (seq![c, ' '] + source) =~= long);
    assert(words + none =~= words);
    assert(words.skip(18) =~= none);
    assert(after_gap(none) == none);
    text::trim_leaves_no_blank_ends(none);
}

proof fn prefix_of_words(words: Seq<char>, rest: Seq<char>)
    requires
        text::lowered(words) == "install skill from"@ || text::lowered(words)
            == "install this skill"@,
    ensures
        install_prefix(words + rest) is Some,
        (install_prefix(words + rest)->0).len() == 18,
{
    reveal_strlit("install skill from");
    reveal_strlit("install this skill");
    lowered_in_parts(words, rest);
    let lower = text::lowered(words + rest);
    assert(text::lowered(words).len() == words.len());
    assert(lower.take(18) =~= text::lowered(words));
}

/// A request for a web search counts wherever it stands in a text.
pub proof fn requests_for_a_web_search(a: Seq<char>, mark: Seq<char>, b: Seq<char>)
    requires
        (a + mark + b).len() > 0,
        !text::whitespace((a + mark + b)[0]),
        !text::whitespace((a + mark + b).last()),
        text::lowered(mark) == "web_search"@ || text::lowered(mark) == "web search"@ || mark
            == "联网搜索"@ || mark == "上网搜索"@ || mark == "实时搜索"@,
    ensures
        asks_web_search(a + mark + b),
{
    let none = Seq::<char>::empty();
    let t = a + mark + b;
    text::trim_of_padded(none, t, none);
    assert(none + t + none =~= t);
    lowered_in_parts(a + mark, b);
    lowered_in_parts(a, mark);
    text::middle_occurs(a, mark, b);
    text::middle_occurs(text::lowered(a), text::lowered(mark), text::lowered(b));
}

/// A claim of something done, and the announcement of something to come, count
/// wherever they stand in a text.
pub proof fn claims_and_announcements(a: Seq<char>, mark: Seq<char>, b: Seq<char>)
    ensures
        mark == "i ran"@ || mark == "i executed"@ || mark == "i wrote"@ || mark == "i saved"@ || mark
            == "i updated"@ || mark == "i created"@ || mark == "i called"@ || mark == "已执行"@ || mark
            == "已运行"@ || mark == "已写入"@ || mark == "已保存"@ || mark == "已更新"@ || mark == "已创建"@
            || mark == "已经完成"@ ==> claims_action(a + mark + b),
        mark == "let me "@ || mark == "now let me"@ || mark == "i will "@ || mark == "i'll "@ || mark
            == "让我"@ || mark == "我来"@ || mark == "接下来"@ ==> announces_intent(a + mark + b),
{
    text::middle_occurs(a, mark, b);
}

/// Claims are sent back only in scheduled tasks, twice at most, and only where no
/// tool was ever called; there every claim is.
pub proof fn claims_without_tools_are_sent_back(retries: int, calls: int, now: int, lower: Seq<char>)
    requires
        0 <= retries,
        0 <= calls,
        0 <= now,
    ensures
        !fabricated_reply(false, retries, calls, now, lower),
        retries >= 2 ==> !fabricated_reply(true, retries, calls, now, lower),
        calls > 0 || now > 0 ==> !fabricated_reply(true, retries, calls, now, lower),
        retries < 2 && calls == 0 && now == 0 ==> (fabricated_reply(true, retries, calls, now, lower)
            <==> claims_action(lower)),
{
}

/// Announcements are sent back only after tools were called and only in short
/// replies: in a conversation once, in a scheduled task twice.
pub proof fn announcements_after_tools_are_sent_back(
    scheduled: bool,
    retries: int,
    calls: int,
    response: Seq<char>,
    lower: Seq<char>,
)
    requires
        0 <= retries,
    ensures
        calls <= 0 ==> !incomplete_reply(scheduled, retries, calls, response, lower),
        text::utf8_len(response) >= 500 ==> !incomplete_reply(
            scheduled,
            retries,
            calls,
            response,
            lower,
        ),
        retries >= 2 ==> !incomplete_reply(scheduled, retries, calls, response, lower),
        retries == 1 ==> !incomplete_reply(false, retries, calls, response, lower),
        calls > 0 && text::utf8_len(response) < 500 && (retries == 0 || scheduled && retries == 1)
            ==> (incomplete_reply(scheduled, retries, calls, response, lower) <==> announces_intent(
            lower,
        )),
{
}

/// The reminder of a web search is given once, and only where the search is owed.
pub proof fn reminders_are_given_once(must: bool, called: bool, uses: int)
    ensures
        !wants_web_search_reminder(must, true, called, uses),
        !wants_web_search_reminder(false, false, called, uses),
        !wants_web_search_reminder(must, false, true, uses),
        uses != 0 ==> !wants_web_search_reminder(must, false, called, uses),
        wants_web_search_reminder(true, false, false, 0),
{
}

/// The question to the classifier holds the reply.
pub proof fn the_question_holds_the_reply(response: Seq<char>)
    ensures
        text::contains(promise_question(response), "\n---\n"@ + response + "\n---\n"@),
{
    reveal_strlit("An AI assistant produced the following response to a user:\n---\n");
    reveal_strlit("An AI assistant produced the following response to a user:");
    reveal_strlit("\n---\n");
    let head = "An AI assistant produced the following response to a user:"@;
    let gap = "\n---\n"@;
    let whole = "\n---\nDid the assistant promise or announce that it would produce content (compile, write, generate, summarize, etc.) without actually providing that content in the response? Answer only YES or NO."@;
    reveal_strlit(
        "\n---\nDid the assistant promise or announce that it would produce content (compile, write, generate, summarize, etc.) without actually providing that content in the response? Answer only YES or NO.",
    );
    assert(head + gap
        =~= "An AI assistant produced the following response to a user:\n---\n"@);
    assert(whole.take(5) =~= gap);
    let rest = whole.skip(5);
    assert(gap + rest =~= whole);
    let said = gap + response + gap;
    text::middle_occurs(head, said, rest);
    assert(head + said + rest =~= promise_question(response));
}

/// A request to install a skill can be made in Chinese too: it names its source
/// behind a colon or a blank.
pub proof fn chinese_requests_name_their_source(words: Seq<char>, c: char, source: Seq<char>)
    requires
        words == "安装这个skill"@ || words == "安装这个 skill"@ || words == "安装skill"@ || words
            == "安装 skill"@ || words == "安装技能"@,
        c == ' ' || c == ':' || c == '\u{ff1a}',
        source.len() > 0,
        !is_source_gap(source[0]),
        !text::whitespace(source[0]),
        !text::whitespace(source.last()),
    ensures
        install_source(words + seq![c] + source) == Some(source),
{
    let none = Seq::<char>::empty();
    let t = words + seq![c] + source;
    chinese_prefix(words, seq![c] + source);
    assert(words + (seq![c] + source) =~= t);
    text::trim_of_padded(none, t, none);
    assert(none + t + none =~= t);
    text::trim_of_padded(none, source, none);
    assert(none + source + none =~= source);
    gaps_are_passed(c, source);
    let n = words.len() as int;
    assert(t.skip(n) =~= seq![c] + source);
    assert(t.skip(n + 1) =~= source);
    assert(after_gap(source) == source);
}

proof fn chinese_prefix(words: Seq<char>, rest: Seq<char>)
    requires
        words == "安装这个skill"@ || words == "安装这个 skill"@ || words == "安装skill"@ || words
            == "安装 skill"@ || words == "安装技能"@,
        rest.len() > 0,
    ensures
        words.len() >= 4,
        !text::whitespace(words[0]),
        install_prefix(words + rest) is Some,
        (install_prefix(words + rest)->0).len() == words.len() || rest[0] == ':' && (install_prefix(
            words + rest,
        )->0).len() == words.len() + 1,
{
    let t = words + rest;
    reveal_strlit("安装这个skill");
    reveal_strlit("安装这个 skill");
    reveal_strlit("安装skill");
    reveal_strlit("安装 skill");
    reveal_strlit("安装技能");
    reveal_strlit("安装这个skill:");
    reveal_strlit("安装这个 skill:");
    reveal_strlit("安装skill:");
    reveal_strlit("安装 skill:");
    reveal_strlit("安装技能:");
    reveal_strlit("install skill from");
    reveal_strlit("install this skill");
    reveal_strlit("install skill");
    let lower = text::lowered(t);
    assert(t[0] == words[0] && t[2] == words[2]);
    assert(t[0] == '安');
    assert(lower[0] == text::ascii_lower(t[0]));
    prefix_is_by_char(lower, "install skill from"@, 0);
    prefix_is_by_char(lower, "install this skill"@, 0);
    prefix_is_by_char(lower, "install skill"@, 0);
    prefix_is_by_char(t, "安装这个skill:"@, 2);
    prefix_is_by_char(t, "安装这个 skill:"@, 2);
    prefix_is_by_char(t, "安装skill:"@, 2);
    prefix_is_by_char(t, "安装 skill:"@, 2);
    prefix_is_by_char(t, "安装技能:"@, 2);
    prefix_is_by_char(t, "安装这个skill"@, 2);
    prefix_is_by_char(t, "安装这个 skill"@, 2);
    prefix_is_by_char(t, "安装skill"@, 2);
    prefix_is_by_char(t, "安装 skill"@, 2);
    prefix_is_by_char(t, "安装技能"@, 2);
    if words.len() > 4 && words[2] == '这' {
        assert(t[4] == words[4]);
        prefix_is_by_char(t, "安装这个skill:"@, 4);
        prefix_is_by_char(t, "安装这个 skill:"@, 4);
        prefix_is_by_char(t, "安装这个skill"@, 4);
        prefix_is_by_char(t, "安装这个 skill"@, 4);
    }
    let n = words.len() as int;
    assert(t[n] == rest[0]);
    assert(t.take(n) =~= words);
    if words == "安装这个skill"@ {
        prefix_is_by_char(t, "安装这个skill:"@, n);
    } else if words == "安装这个 skill"@ {
        prefix_is_by_char(t, "安装这个 skill:"@, n);
    } else if words == "安装skill"@ {
        prefix_is_by_char(t, "安装skill:"@, n);
    } else if words == "安装 skill"@ {
        prefix_is_by_char(t, "安装 skill:"@, n);
    } else {
        prefix_is_by_char(t, "安装技能:"@, n);
    }
}

proof fn prefix_is_by_char(t: Seq<char>, p: Seq<char>, i: int)
    requires
        0 <= i < p.len(),
    ensures
        text::starts_with(t, p) ==> t[i] == p[i],
{
    if text::starts_with(t, p) {
        assert(t.take(p.len() as int)[i] == t[i]);
    }
}

} // verus!
