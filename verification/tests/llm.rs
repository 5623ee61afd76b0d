use axil_core::db::llm::{entity_prompt, ENTITY_SCHEMA};
use axil_core::db::Axil;
use axil_core::entity::EntityType;
use axil_core::error::{AxilError, Result};
use axil_core::json::{Number, Value};
use axil_core::llm::{
    LlmConfig, LlmLimits, LlmProvider, LlmRateLimiter, LlmRequest, LlmResponse, LlmSession,
    LlmUsage, LlmUsageTracker, NoLlm, MINUTE_NS,
};
use axil_core::llm_http::{
    after_failure, complete_messages, extract_messages, http_settings, read_reply, request_body,
    strip_fences, Retry,
};

fn convert(v: &serde_json::Value) -> Value {
    match v {
        serde_json::Value::Null => Value::Null,
        serde_json::Value::Bool(b) => Value::Bool(*b),
        serde_json::Value::Number(n) => Value::Number(if let Some(u) = n.as_u64() {
            Number::PosInt(u)
        } else if let Some(i) = n.as_i64() {
            Number::NegInt(i)
        } else {
            Number::Float(n.as_f64().unwrap().to_bits())
        }),
        serde_json::Value::String(s) => Value::Text(s.clone()),
        serde_json::Value::Array(a) => Value::Array(a.iter().map(convert).collect()),
        serde_json::Value::Object(o) => {
            Value::Object(o.iter().map(|(k, v)| (k.clone(), convert(v))).collect())
        }
    }
}

fn json(text: &str) -> Value {
    convert(&serde_json::from_str(text).unwrap())
}

fn bits(x: f64) -> u64 {
    x.to_bits()
}

#[test]
fn no_llm_is_unavailable() {
    let provider = NoLlm;
    assert!(!provider.is_available());
    assert_eq!(provider.model_name(), "none");
    assert!(provider.complete("test").is_err());
    assert!(provider.extract_json("test", "{}").is_err());
}

#[test]
fn usage_tracker_records() {
    let mut tracker = LlmUsageTracker::new();
    tracker.record_call(100, 50);
    tracker.record_call(200, 100);
    tracker.record_fallback();

    let cost = (tracker.input_tokens as f64 * 0.15 + tracker.output_tokens as f64 * 0.60) / 1e6;
    let usage = tracker.usage(bits(cost));
    assert_eq!(usage.calls, 2);
    assert_eq!(usage.input_tokens, 300);
    assert_eq!(usage.output_tokens, 150);
    assert_eq!(usage.fallback_count, 1);
    assert!(f64::from_bits(usage.estimated_cost_usd) > 0.0);
}

fn usage(calls: u64, input_tokens: u64, output_tokens: u64, cost: f64) -> LlmUsage {
    LlmUsage {
        calls,
        input_tokens,
        output_tokens,
        estimated_cost_usd: bits(cost),
        fallback_count: 0,
    }
}

#[test]
fn rate_limiter_token_limit() {
    let limits = LlmLimits {
        max_calls_per_minute: 0,
        max_tokens_per_session: 100,
        budget_usd_per_day: bits(0.0),
    };
    let mut limiter = LlmRateLimiter::new(limits);
    assert!(limiter.check_and_record(&usage(1, 50, 40, 0.0), 1));
    assert!(!limiter.check_and_record(&usage(2, 60, 50, 0.0), 2));
}

#[test]
fn tokens_are_only_added_up_where_they_are_limited() {
    let limits = LlmLimits {
        max_calls_per_minute: 0,
        max_tokens_per_session: 0,
        budget_usd_per_day: bits(0.0),
    };
    let mut limiter = LlmRateLimiter::new(limits);
    assert!(limiter.check_and_record(&usage(1, u64::MAX, u64::MAX, 0.0), 1));
}

#[test]
fn rate_limiter_budget_limit() {
    let limits = LlmLimits {
        max_calls_per_minute: 0,
        max_tokens_per_session: 0,
        budget_usd_per_day: bits(1.0),
    };
    let mut limiter = LlmRateLimiter::new(limits);
    assert!(limiter.check_and_record(&usage(1, 0, 0, 0.50), 1));
    assert!(!limiter.check_and_record(&usage(10, 0, 0, 1.50), 2));
    assert!(!limiter.check_and_record(&usage(10, 0, 0, 1.0), 3));
    assert!(limiter.check_and_record(&usage(10, 0, 0, -1.0), 4));
}

#[test]
fn calls_are_limited_by_the_minute() {
    let limits = LlmLimits {
        max_calls_per_minute: 2,
        max_tokens_per_session: 0,
        budget_usd_per_day: bits(0.0),
    };
    let mut limiter = LlmRateLimiter::new(limits);
    let u = usage(0, 0, 0, 0.0);
    assert!(limiter.check_and_record(&u, 10));
    assert!(limiter.check_and_record(&u, 20));
    assert!(!limiter.check_and_record(&u, 30));
    assert!(limiter.check_and_record(&u, 10 + MINUTE_NS));
    assert!(!limiter.check_and_record(&u, 19 + MINUTE_NS));
    assert_eq!(limiter.limits().max_calls_per_minute, 2);
}

#[test]
fn llm_config_default_not_configured() {
    let config = LlmConfig::default();
    assert!(!config.is_configured(None));
    assert!(http_settings(&config, None).is_none());
    assert_eq!(f64::from_bits(config.cost_per_1m_input), 0.15);
    assert_eq!(f64::from_bits(config.cost_per_1m_output), 0.60);
    assert_eq!(config.limits.max_calls_per_minute, 10);
    assert_eq!(config.limits.max_tokens_per_session, 50_000);
    assert_eq!(f64::from_bits(config.limits.budget_usd_per_day), 1.0);
}

#[test]
fn keys_of_the_environment_come_first() {
    let config = LlmConfig {
        endpoint: Some("http://localhost".to_string()),
        model: Some("m".to_string()),
        api_key: Some("file".to_string()),
        ..LlmConfig::default()
    };
    assert!(config.is_configured(None));
    assert_eq!(config.resolved_api_key(Some("env")).as_deref(), Some("env"));
    assert_eq!(config.resolved_api_key(None).as_deref(), Some("file"));
    let settings = http_settings(&config, Some("env")).unwrap();
    assert_eq!(settings.api_key, "env");
    assert!(settings.is_available());
    assert!(!http_settings(&config, Some("")).unwrap().is_available());
}

/// A model that repeats what it is asked.
struct Echo(bool);

impl LlmProvider for Echo {
    fn complete(&self, prompt: &str) -> Result<LlmResponse> {
        if prompt == "fail" {
            return Err(AxilError::plugin("down"));
        }
        Ok(LlmResponse {
            text: prompt.to_string(),
            input_tokens: 3,
            output_tokens: 4,
        })
    }

    fn extract_json(&self, _prompt: &str, schema_hint: &str) -> Result<LlmResponse> {
        self.complete(schema_hint)
    }

    fn model_name(&self) -> &str {
        "echo"
    }

    fn is_available(&self) -> bool {
        self.0
    }
}

fn session(max_calls: u64) -> LlmSession {
    LlmSession {
        usage: LlmUsageTracker::new(),
        limiter: LlmRateLimiter::new(LlmLimits {
            max_calls_per_minute: max_calls,
            max_tokens_per_session: 0,
            budget_usd_per_day: 0,
        }),
    }
}

fn message<T>(r: Result<T>) -> String {
    match r {
        Err(AxilError::Plugin(m)) => m,
        _ => panic!("a plugin error"),
    }
}

#[test]
fn guarded_calls_are_counted() {
    let mut s = session(2);
    let ask = LlmRequest::Complete("hello".to_string());
    let reply = s.llm_call_guarded(Some(&Echo(true)), &ask, 0, 1).unwrap();
    assert_eq!(reply.text, "hello");
    assert_eq!((s.usage.calls, s.usage.input_tokens, s.usage.output_tokens), (1, 3, 4));
    let hint = LlmRequest::ExtractJson("x".to_string(), "[]".to_string());
    assert_eq!(s.llm_call_guarded(Some(&Echo(true)), &hint, 0, 2).unwrap().text, "[]");
    assert_eq!(
        message(s.llm_call_guarded(Some(&Echo(true)), &ask, 0, 3)),
        "LLM budget/rate limit reached — falling back to algorithmic"
    );
    assert_eq!((s.usage.calls, s.usage.fallback_count), (2, 1));
}

#[test]
fn calls_without_a_model_fail() {
    let mut s = session(0);
    let ask = LlmRequest::Complete("fail".to_string());
    assert_eq!(message(s.llm_call_guarded::<Echo>(None, &ask, 0, 1)), "no LLM configured");
    assert_eq!(s.usage.fallback_count, 0);
    assert_eq!(
        message(s.llm_call_guarded(Some(&Echo(false)), &ask, 0, 1)),
        "LLM provider is not available"
    );
    assert_eq!(s.usage.fallback_count, 1);
    assert_eq!(message(s.llm_call_guarded(Some(&Echo(true)), &ask, 0, 1)), "down");
    assert_eq!((s.usage.calls, s.usage.fallback_count), (0, 1));
}

#[test]
fn requests_hold_the_messages() {
    let body = request_body("m", extract_messages("find", "[x]"));
    assert!(body.same(&json(
        r#"{
            "model": "m",
            "temperature": 0.1,
            "messages": [
                {"role": "system", "content": "You are a structured data extractor. Return ONLY valid JSON matching this schema: [x]\nNo markdown, no explanation, just the JSON."},
                {"role": "user", "content": "find"}
            ]
        }"#
    )));
    assert_eq!(complete_messages("hi").len(), 1);
    assert_eq!(complete_messages("hi")[0].get_str("content"), Some("hi"));
}

#[test]
fn replies_are_read() {
    let body = json(
        r#"{"choices": [{"message": {"content": "hello"}}], "usage": {"prompt_tokens": 5, "completion_tokens": 6}}"#,
    );
    assert_eq!(read_reply(&body, "").unwrap(), ("hello".to_string(), 5, 6));
    let bare = json(r#"{"choices": [{"message": {"content": "x"}}]}"#);
    assert_eq!(read_reply(&bare, "").unwrap(), ("x".to_string(), 0, 0));
    assert_eq!(
        message(read_reply(&json("{}"), "{}")),
        "unexpected LLM response format: {}"
    );
    assert!(read_reply(&json(r#"{"choices": []}"#), "").is_err());
}

#[test]
fn fences_are_stripped() {
    assert_eq!(strip_fences(" ```json\n[1]\n``` "), "[1]");
    assert_eq!(strip_fences("```\n[1]\n```"), "[1]");
    assert_eq!(strip_fences("[1]"), "[1]");
    assert_eq!(strip_fences("```json\n[1]"), "```json\n[1]");
}

#[test]
fn failed_requests_are_tried_again() {
    let transient = AxilError::plugin("timeout");
    assert_eq!(after_failure(0, 2, &transient), Retry::Wait(1));
    assert_eq!(after_failure(1, 2, &transient), Retry::Wait(2));
    assert_eq!(after_failure(2, 2, &transient), Retry::Stop);
    for code in ["400", "401", "403"] {
        let e = AxilError::plugin(&format!("status {code}"));
        assert_eq!(after_failure(0, 2, &e), Retry::Stop);
    }
}

#[test]
fn models_add_entities_behind_those_found() {
    let text = "Fixed `AuthModule` for Ada";
    let found = Axil::extract_entities_enhanced(text, None);
    let reply = vec![
        json(r#"{"name": "authmodule", "type": "code"}"#),
        json(r#"{"name": "Ada", "type": "person"}"#),
        json(r#"{"name": "ADA", "type": "person"}"#),
        json(r#"{"name": "main.rs", "type": "file"}"#),
        json(r#"{"name": "nameless"}"#),
    ];
    let all = Axil::extract_entities_enhanced(text, Some(&reply));
    assert_eq!(found.len(), 1);
    let names: Vec<&str> = all.iter().map(|e| e.name.as_str()).collect();
    assert_eq!(names, vec!["authmodule", "Ada", "main.rs"]);
    assert_eq!(all[0].entity_type, EntityType::Code);
    assert_eq!(all[1].entity_type, EntityType::Reference);
    assert_eq!(all[2].entity_type, EntityType::File);
    let others = vec![json(r#"{"name": "Ada", "type": "person"}"#)];
    let kept = Axil::extract_entities_enhanced(text, Some(&others));
    assert_eq!(kept[..1], found[..]);
    assert_eq!(kept.len(), 2);
}

#[test]
fn models_win_over_patterns() {
    let reply = vec![json(r#"{"name": "AuthModule", "type": "file"}"#)];
    let all = Axil::extract_entities_enhanced("`AuthModule`", Some(&reply));
    let named: Vec<_> = all.iter().filter(|e| e.name == "AuthModule").collect();
    assert_eq!(named.len(), 1);
    assert_eq!(named[0].entity_type, EntityType::File);
}

#[test]
fn prompts_name_what_is_asked() {
    let p = entity_prompt("some text");
    assert!(p.starts_with("Extract named entities from this text. Return a JSON array.\nText: \"some text\"\n"));
    assert!(p.contains(ENTITY_SCHEMA));
    assert!(p.ends_with("Return ONLY the JSON array, no other text."));
}

#[test]
fn records_are_put_into_tables_that_exist() {
    let tables = vec!["Decisions".to_string(), "errors".to_string()];
    let prompt = Axil::categorize_request(&tables, "{\"a\":1}").unwrap();
    assert_eq!(
        prompt,
        "Given this data, which table does it belong in? Available tables: [Decisions, errors]\nData: {\"a\":1}\n\nReturn ONLY the table name, nothing else."
    );
    assert!(Axil::categorize_request(&vec![], "{}").is_none());
    assert_eq!(Axil::auto_categorize(&tables, " decisions\n").as_deref(), Some("Decisions"));
    assert_eq!(Axil::auto_categorize(&tables, "notes"), None);
}

#[test]
fn long_data_is_cut() {
    let tables = vec!["t".to_string()];
    let prompt = Axil::categorize_request(&tables, &"x".repeat(700)).unwrap();
    assert!(prompt.contains(&format!("Data: {}\n", "x".repeat(500))));
    let wide = "é".repeat(400);
    let prompt = Axil::categorize_request(&tables, &wide).unwrap();
    assert!(prompt.contains(&format!("Data: {}\n", "é".repeat(250))));
}
