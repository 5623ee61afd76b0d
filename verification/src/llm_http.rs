//! The chat format of models that are reached over HTTP: what is sent, what comes
//! back, and when a failed request is tried again.

use crate::error::{AxilError, Result};
use crate::json::{Json, Number, Value};
use crate::llm::LlmConfig;
use crate::text::{
    chars_of, contains, contains_text, ends_with, join2, join3, starts_with, string_of, trim,
    trimmed,
};
use vstd::prelude::*;

verus! {

/// The bits of 0.1, the temperature that is asked for.
pub const TEMPERATURE: u64 = 0x3fb9_9999_9999_999a;

/// How often a request is tried again by default.
pub const DEFAULT_RETRIES: u32 = 2;

/// A message.
pub open spec fn message_of(role: Seq<char>, content: Seq<char>) -> Json {
    Json::Object(map!["role"@ => Json::Text(role), "content"@ => Json::Text(content)])
}

/// A message.
fn message(role: &str, content: &str) -> (r: Value)
    ensures
        r.model() == message_of(role@, content@),
{
    let mut m = Value::object();
    m.set("role", Value::text(role));
    m.set("content", Value::text(content));
    proof {
        reveal_strlit("role");
        reveal_strlit("content");
        assert("role"@.len() != "content"@.len());
        assert(m.model()->Object_0 =~= message_of(role@, content@)->Object_0);
    }
    m
}

/// The messages that ask for a text.
pub open spec fn complete_messages_of(prompt: Seq<char>) -> Seq<Json> {
    seq![message_of("user"@, prompt)]
}

/// What the model is told before it is asked for JSON.
pub open spec fn extractor_role(hint: Seq<char>) -> Seq<char> {
    "You are a structured data extractor. Return ONLY valid JSON matching this schema: "@ + hint
        + "\nNo markdown, no explanation, just the JSON."@
}

/// The messages that ask for JSON.
pub open spec fn extract_messages_of(prompt: Seq<char>, hint: Seq<char>) -> Seq<Json> {
    seq![message_of("system"@, extractor_role(hint)), message_of("user"@, prompt)]
}

/// Values, in the model.
pub open spec fn models(v: Seq<Value>) -> Seq<Json> {
    v.map_values(|x: Value| x.model())
}

/// The messages that ask for a text.
pub fn complete_messages(prompt: &str) -> (r: Vec<Value>)
    ensures
        models(r@) == complete_messages_of(prompt@),
{
    let mut v: Vec<Value> = Vec::new();
    v.push(message("user", prompt));
    assert(models(v@) =~= complete_messages_of(prompt@));
    v
}

/// The messages that ask for JSON of the kind that the hint describes.
pub fn extract_messages(prompt: &str, hint: &str) -> (r: Vec<Value>)
    ensures
        models(r@) == extract_messages_of(prompt@, hint@),
{
    let role = join3(
        "You are a structured data extractor. Return ONLY valid JSON matching this schema: ",
        hint,
        "\nNo markdown, no explanation, just the JSON.",
    );
    let mut v: Vec<Value> = Vec::new();
    v.push(message("system", role.as_str()));
    v.push(message("user", prompt));
    assert(models(v@) =~= extract_messages_of(prompt@, hint@));
    v
}

/// What is sent.
pub open spec fn body_of(model: Seq<char>, messages: Seq<Json>) -> Json {
    Json::Object(
        map![
            "model"@ => Json::Text(model),
            "messages"@ => Json::Array(messages),
            "temperature"@ => Json::Float(TEMPERATURE),
        ],
    )
}

/// What is sent.
pub fn request_body(model: &str, messages: Vec<Value>) -> (r: Value)
    ensures
        r.model() == body_of(model@, models(messages@)),
{
    let list = Value::Array(messages);
    assert(list.model()->Array_0 =~= models(messages@));
    let mut m = Value::object();
    m.set("model", Value::text(model));
    m.set("messages", list);
    m.set("temperature", Value::Number(Number::Float(TEMPERATURE)));
    proof {
        reveal_strlit("model");
        reveal_strlit("messages");
        reveal_strlit("temperature");
        assert("model"@.len() == 5 && "messages"@.len() == 8 && "temperature"@.len() == 11);
        assert(m.model()->Object_0 =~= body_of(model@, models(messages@))->Object_0);
    }
    m
}

/// What stands under the token `0`: the first item of a list, or that member of an
/// object.
pub open spec fn at_zero(j: Json) -> Option<Json> {
    match j {
        Json::Array(a) => if a.len() > 0 {
            Some(a[0])
        } else {
            None
        },
        _ => j.member("0"@),
    }
}

/// The text of the first choice of a reply.
pub open spec fn content_of(body: Json) -> Option<Seq<char>> {
    match body.member("choices"@) {
        Some(choices) => match at_zero(choices) {
            Some(choice) => match choice.member("message"@) {
                Some(message) => message.text_member("content"@),
                None => None,
            },
            None => None,
        },
        None => None,
    }
}

/// A count in what a reply says of its usage, or 0.
pub open spec fn tokens_of(body: Json, key: Seq<char>) -> u64 {
    match body.member("usage"@) {
        Some(usage) => match usage.count_member(key) {
            Some(n) => n,
            None => 0,
        },
        None => 0,
    }
}

/// The text of the first choice of a reply.
fn content(body: &Value) -> (r: Option<&str>)
    ensures
        match r {
            Some(t) => content_of(body.model()) == Some(t@),
            None => content_of(body.model()) is None,
        },
{
    let choices = match body.get("choices") {
        Some(c) => c,
        None => {
            return None;
        },
    };
    let choice = match choices {
        Value::Array(a) => {
            if a.len() == 0 {
                return None;
            }
            assert(choices.model()->Array_0[0] == a@[0].model());
            &a[0]
        },
        _ => match choices.get("0") {
            Some(c) => c,
            None => {
                return None;
            },
        },
    };
    match choice.get("message") {
        Some(m) => m.get_str("content"),
        None => None,
    }
}

/// A count in what a reply says of its usage, or 0.
fn tokens(body: &Value, key: &str) -> (r: u64)
    ensures
        r == tokens_of(body.model(), key@),
{
    match body.get("usage") {
        Some(u) => match u.get_u64(key) {
            Some(n) => n,
            None => 0,
        },
        None => 0,
    }
}

/// What a reply holds: the text and the tokens read and written. A reply without a
/// text is an error that shows it.
pub fn read_reply(body: &Value, shown: &str) -> (r: Result<(String, u64, u64)>)
    ensures
        match r {
            Ok(x) => content_of(body.model()) == Some(x.0@) && x.1 == tokens_of(
                body.model(),
                "prompt_tokens"@,
            ) && x.2 == tokens_of(body.model(), "completion_tokens"@),
            Err(e) => content_of(body.model()) is None && (e matches AxilError::Plugin(m) && m@
                == "unexpected LLM response format: "@ + shown@),
        },
{
    match content(body) {
        Some(t) => Ok(
            (t.to_owned(), tokens(body, "prompt_tokens"), tokens(body, "completion_tokens")),
        ),
        None => Err(
            AxilError::Plugin(join2("unexpected LLM response format: ", shown)),
        ),
    }
}

/// A text without the fence at its front, where there is one.
pub open spec fn without_opening(t: Seq<char>) -> Seq<char> {
    if "```json"@.is_prefix_of(t) {
        t.skip("```json"@.len() as int)
    } else if "```"@.is_prefix_of(t) {
        t.skip("```"@.len() as int)
    } else {
        t
    }
}

/// A reply without the code fences around it and the white space at its ends. A fence
/// that is not closed stays.
pub open spec fn unfenced(text: Seq<char>) -> Seq<char> {
    let t = trimmed(text);
    let a = without_opening(t);
    if "```"@.is_suffix_of(a) {
        trimmed(a.take(a.len() - "```"@.len()))
    } else {
        trimmed(t)
    }
}

/// A text without its first `n` characters.
fn dropped(s: &str, n: usize) -> (r: String)
    requires
        n <= s@.len(),
    ensures
        r@ == s@.skip(n as int),
{
    let v = chars_of(s);
    let r = string_of(&v, n, v.len());
    assert(r@ =~= s@.skip(n as int));
    r
}

/// A reply without the code fences around it.
pub fn strip_fences(text: &str) -> (r: String)
    ensures
        r@ == unfenced(text@),
{
    proof {
        reveal_strlit("```json");
        reveal_strlit("```");
    }
    let t = trim(text);
    let a = if starts_with(t.as_str(), "```json") {
        dropped(t.as_str(), 7)
    } else if starts_with(t.as_str(), "```") {
        dropped(t.as_str(), 3)
    } else {
        t.clone()
    };
    if ends_with(a.as_str(), "```") {
        let v = chars_of(a.as_str());
        let inner = string_of(&v, 0, v.len() - 3);
        assert(inner@ =~= a@.take(a@.len() - 3));
        trim(inner.as_str())
    } else {
        trim(t.as_str())
    }
}

/// What follows a failed request.
#[derive(Clone, Copy, Debug, PartialEq, Eq, Structural)]
pub enum Retry {
    /// The failure stands.
    Stop,
    /// The request is sent again after so many seconds.
    Wait(u64),
}

/// Whether the message of a failure shows that trying again is no use: the request
/// was refused or not understood.
pub open spec fn is_final(message: Seq<char>) -> bool {
    contains_text(message, "401"@) || contains_text(message, "403"@) || contains_text(
        message,
        "400"@,
    )
}

/// What follows when the attempt with a number, counted from 0, failed: one second
/// more is waited before each further attempt.
pub fn after_failure(attempt: u32, max_retries: u32, error: &AxilError) -> (r: Retry)
    ensures
        r == if is_final(error.describe()) || attempt >= max_retries {
            Retry::Stop
        } else {
            Retry::Wait((attempt + 1) as u64)
        },
{
    let text = error.message();
    let hopeless = contains(text.as_str(), "401") || contains(text.as_str(), "403") || contains(
        text.as_str(),
        "400",
    );
    if hopeless || attempt >= max_retries {
        Retry::Stop
    } else {
        Retry::Wait((attempt + 1) as u64)
    }
}

/// What a provider over HTTP is made from.
#[derive(Debug)]
pub struct HttpSettings {
    pub endpoint: String,
    pub api_key: String,
    pub model: String,
}

/// What a provider over HTTP is made from, where the configuration has all of it,
/// given the key in the environment.
pub fn http_settings(config: &LlmConfig, env: Option<&str>) -> (r: Option<HttpSettings>)
    ensures
        r is Some <==> config.endpoint is Some && config.model is Some && (env is Some
            || config.api_key is Some),
        r matches Some(h) ==> Some(h.endpoint@) == crate::llm::maybe_text(config.endpoint) && Some(
            h.model@,
        ) == crate::llm::maybe_text(config.model) && Some(h.api_key@) == config.key(
            match env {
                Some(k) => Some(k@),
                None => None,
            },
        ),
{
    match (&config.endpoint, &config.model, config.resolved_api_key(env)) {
        (Some(e), Some(m), Some(k)) => Some(
            HttpSettings { endpoint: e.clone(), api_key: k, model: m.clone() },
        ),
        _ => None,
    }
}

impl HttpSettings {
    /// Whether the provider can be called.
    pub fn is_available(&self) -> (r: bool)
        ensures
            r == (self.api_key@.len() > 0 && self.endpoint@.len() > 0),
    {
        !crate::text::is_blank(self.api_key.as_str()) && !crate::text::is_blank(
            self.endpoint.as_str(),
        )
    }
}

/// A reply is read from the content of the message of its first choice, with the tokens
/// that it says were used, and 0 where it says nothing of them.
pub proof fn replies_are_read_from_the_first_choice(
    body: &Value,
    shown: &str,
    r: Result<(String, u64, u64)>,
    choices: Seq<Json>,
    text: Seq<char>,
)
    requires
        call_ensures(read_reply, (body, shown), r),
        body.model().member("choices"@) == Some(Json::Array(choices)),
        choices.len() > 0,
        choices[0].member("message"@) matches Some(m) && m.member("content"@) == Some(
            Json::Text(text),
        ),
    ensures
        r matches Ok(x) && x.0@ == text && (body.model().member("usage"@) is None ==> x.1 == 0 && x.2
            == 0) && (body.model().member("usage"@) matches Some(u) ==> (u.member("prompt_tokens"@)
            matches Some(Json::PosInt(n)) ==> x.1 == n) && (u.member("completion_tokens"@)
            matches Some(Json::PosInt(n)) ==> x.2 == n)),
{
}

/// A reply without a choice is an error.
pub proof fn replies_without_a_choice_are_errors(
    body: &Value,
    shown: &str,
    r: Result<(String, u64, u64)>,
)
    requires
        call_ensures(read_reply, (body, shown), r),
        body.model().member("choices"@) is None || body.model().member("choices"@) == Some(
            Json::Array(Seq::empty()),
        ),
    ensures
        r is Err,
{
}

/// A text that begins and ends with something to see is not trimmed.
proof fn lemma_untrimmed(t: Seq<char>)
    requires
        t.len() > 0,
        t[0] == '`',
        t.last() == '`',
    ensures
        trimmed(t) == t,
{
    crate::text::words_end_at_spaces('`');
    let (a, b) = crate::text::trimming_takes_the_ends_away(t, crate::text::CharClass::Visible);
    assert(crate::text::CharClass::Visible.holds(t[0]));
    assert(crate::text::CharClass::Visible.holds(t[t.len() - 1]));
    assert(a == 0 && b == t.len());
    assert(t.subrange(0, t.len() as int) =~= t);
}

/// What stands between code fences is what a reply says, whether the fence names the
/// language or not.
pub proof fn fences_are_taken_away(text: &str, x: Seq<char>, r: String)
    requires
        call_ensures(strip_fences, (text,), r),
        x.len() > 0,
        x[0] != 'j',
        text@ == "```json"@ + x + "```"@ || text@ == "```"@ + x + "```"@,
    ensures
        r@ == trimmed(x),
{
    reveal_strlit("```json");
    reveal_strlit("```");
    let o = "```json"@;
    let f = "```"@;
    let t = text@;
    assert(o.len() == 7 && f.len() == 3 && o[0] == '`' && f[0] == '`' && f[2] == '`' && o[3]
        == 'j');
    assert(t[0] == '`' && t.last() == '`');
    lemma_untrimmed(t);
    if t == o + x + f {
        assert(t.subrange(0, 7) =~= o);
        assert(o.is_prefix_of(t));
        let a = t.skip(7);
        assert(a =~= x + f);
        assert(a.subrange(a.len() - 3, a.len() as int) =~= f);
        assert(a.take(a.len() - 3) =~= x);
    } else {
        assert(t[3] == x[0]);
        assert(!o.is_prefix_of(t)) by {
            if o.is_prefix_of(t) {
                assert(t.subrange(0, 7)[3] == o[3]);
            }
        }
        assert(t.subrange(0, 3) =~= f);
        assert(f.is_prefix_of(t));
        let a = t.skip(3);
        assert(a =~= x + f);
        assert(a.subrange(a.len() - 3, a.len() as int) =~= f);
        assert(a.take(a.len() - 3) =~= x);
    }
}

/// A reply without a fence at its end is left as it is, but for the white space around it.
pub proof fn unfenced_replies_stay(text: &str, r: String)
    requires
        call_ensures(strip_fences, (text,), r),
        trimmed(text@).len() > 0,
        trimmed(text@)[trimmed(text@).len() - 1] != '`',
    ensures
        r@ == trimmed(trimmed(text@)),
{
    reveal_strlit("```json");
    reveal_strlit("```");
    let t = trimmed(text@);
    let a = without_opening(t);
    if "```"@.is_suffix_of(a) {
        assert("```"@.len() == 3 && "```"@[2] == '`');
        assert(a.len() >= 3);
        assert(a.subrange(a.len() - 3, a.len() as int)[2] == a[a.len() - 1]);
        assert(a[a.len() - 1] == t[t.len() - 1]);
    }
}

/// A failed request is sent again after one second, then after two, and so on, until it was
/// sent as often as allowed. One that was refused or not understood is not sent again.
pub proof fn failed_requests_are_sent_again(
    attempt: u32,
    max: u32,
    error: &AxilError,
    r: Retry,
)
    requires
        call_ensures(after_failure, (attempt, max, error), r),
    ensures
        attempt >= max ==> r is Stop,
        contains_text(error.describe(), "401"@) || contains_text(error.describe(), "403"@)
            || contains_text(error.describe(), "400"@) ==> r is Stop,
        attempt < max && !contains_text(error.describe(), "401"@) && !contains_text(
            error.describe(),
            "403"@,
        ) && !contains_text(error.describe(), "400"@) ==> r == Retry::Wait((attempt + 1) as u64),
{
}

/// Whether a text holds another.
pub open spec fn told(t: Seq<char>, part: Seq<char>) -> bool {
    exists|at: int|
        0 <= at && at + part.len() <= t.len() && #[trigger] t.subrange(at, at + part.len()) == part
}

/// What is sent names the model and holds the messages, the last of which is the prompt of
/// the user; where JSON is asked for, the schema is told before.
pub proof fn requests_end_with_the_prompt(
    model: &str,
    prompt: &str,
    hint: &str,
    c: Vec<Value>,
    e: Vec<Value>,
    body: Value,
)
    requires
        call_ensures(complete_messages, (prompt,), c),
        call_ensures(extract_messages, (prompt, hint), e),
        call_ensures(request_body, (model, e), body),
    ensures
        c@.len() == 1 && c@[0].model().member("role"@) == Some(Json::Text("user"@))
            && c@[0].model().member("content"@) == Some(Json::Text(prompt@)),
        e@.len() == 2 && e@[1].model().member("role"@) == Some(Json::Text("user"@))
            && e@[1].model().member("content"@) == Some(Json::Text(prompt@)),
        e@[0].model().member("role"@) == Some(Json::Text("system"@)),
        e@[0].model().member("content"@) matches Some(Json::Text(t)) && told(t, hint@),
        body.model().member("model"@) == Some(Json::Text(model@)),
        body.model().member("messages"@) matches Some(Json::Array(m)) && m.len() == 2 && m[0]
            == e@[0].model() && m[1] == e@[1].model(),
{
    reveal_strlit("role");
    reveal_strlit("content");
    reveal_strlit("model");
    reveal_strlit("messages");
    reveal_strlit("temperature");
    assert("role"@.len() == 4 && "content"@.len() == 7 && "model"@.len() == 5 && "messages"@.len()
        == 8 && "temperature"@.len() == 11);
    let m = models(c@);
    assert(m.len() == c@.len() && m[0] == c@[0].model());
    let n = models(e@);
    assert(n == extract_messages_of(prompt@, hint@));
    assert(n.len() == 2);
    assert(n.len() == e@.len() && n[0] == e@[0].model() && n[1] == e@[1].model());
    let a = "You are a structured data extractor. Return ONLY valid JSON matching this schema: "@;
    let t = extractor_role(hint@);
    let at = a.len() as int;
    assert(t.subrange(at, at + hint@.len()) =~= hint@);
    assert(told(t, hint@));
    assert(e@[0].model().member("content"@) == Some(Json::Text(t)));
}

/// A provider over HTTP is made from the address, the model and the key that counts, and can
/// be called where the address and the key are not empty.
pub proof fn providers_use_what_is_configured(
    config: &LlmConfig,
    env: Option<&str>,
    r: Option<HttpSettings>,
    key: Option<String>,
)
    requires
        call_ensures(http_settings, (config, env), r),
        call_ensures(LlmConfig::resolved_api_key, (config, env), key),
    ensures
        r is Some <==> config.endpoint is Some && config.model is Some && key is Some,
        r matches Some(h) ==> (config.endpoint matches Some(x) && h.endpoint@ == x@) && (
        config.model matches Some(x) && h.model@ == x@) && (key matches Some(x) && h.api_key@
            == x@),
{
}

} // verus!
