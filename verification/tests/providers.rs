use squire::anthropic::{anthropic_budget_tokens, settle_level};
use squire::chat::{
    to_chat_role, ChatMessage, ChatRole, LegacyContextAdapter, LlmError, MessageRole, StoredMessage,
    ToolDefinition,
};
use squire::openai::{
    effort_for_level, is_deepseek_family, is_openai_compat_reasoning_effort_family,
    is_openai_reasoning_family, is_reasoning_family_name, truncate_chars,
};
use squire::registry::{plan_providers, ProviderKind, ProviderRegistryConfig, ProviderSpec};
use std::collections::HashMap;

#[test]
fn thinking_levels_normalize() {
    assert_eq!(squire::anthropic::normalize_level(None), "mid");
    assert_eq!(squire::anthropic::normalize_level(Some("HIGH".to_string())), "high");
    assert_eq!(squire::anthropic::normalize_level(Some("extreme".to_string())), "mid");
    assert_eq!(squire::openai::normalize_level(None), "default");
    assert_eq!(squire::openai::normalize_level(Some("Low".to_string())), "low");
    assert_eq!(squire::openai::normalize_level(Some("max".to_string())), "default");
    assert_eq!(settle_level("none", "mid"), "none");
    assert_eq!(settle_level("None", "mid"), "mid");
}

#[test]
fn budgets_and_efforts() {
    assert_eq!(anthropic_budget_tokens("low"), Some(1024));
    assert_eq!(anthropic_budget_tokens("mid"), Some(4096));
    assert_eq!(anthropic_budget_tokens("high"), Some(8192));
    assert_eq!(anthropic_budget_tokens("default"), None);
    assert_eq!(effort_for_level("mid"), Some("medium"));
    assert_eq!(effort_for_level("high"), Some("high"));
    assert_eq!(effort_for_level("none"), None);
}

#[test]
fn model_families() {
    assert!(is_openai_reasoning_family("O3-mini"));
    assert!(is_openai_reasoning_family("gpt-5.1"));
    assert!(!is_openai_reasoning_family("gpt-4o"));
    assert!(!is_reasoning_family_name("O1"));
    assert!(is_deepseek_family("DeepSeek-R1"));
    assert!(!is_deepseek_family("deepseek"));
    assert!(is_openai_compat_reasoning_effort_family("x-ai/Grok-4"));
    assert!(is_openai_compat_reasoning_effort_family("nvidia/nemotron-ultra"));
    assert!(!is_openai_compat_reasoning_effort_family("llama-3"));
}

#[test]
fn truncation_marks_cut_text() {
    assert_eq!(truncate_chars("héllo world", 5), "héllo...");
    assert_eq!(truncate_chars("short", 5), "short");
    assert_eq!(truncate_chars("", 0), "");
}

fn spec(t: &str, name: &str, model: &str, models: &[&str]) -> ProviderSpec {
    ProviderSpec {
        provider_type: t.to_string(),
        name: name.to_string(),
        api_key: "k".to_string(),
        model: model.to_string(),
        models: models.iter().map(|s| s.to_string()).collect(),
        endpoint: None,
        metadata: HashMap::new(),
        category: None,
    }
}

#[test]
fn registry_plans_known_providers_in_order() {
    let cfg = ProviderRegistryConfig {
        providers: vec![
            spec("Local", "mystery", "m", &[]),
            spec("OpenRouter", "router", "", &["a/b", "c/d"]),
            spec("anthropic", "main", "sonnet", &[]),
        ],
        verbose_logging: false,
        wire_log_path: None,
    };
    let plan = plan_providers(&cfg);
    assert_eq!(plan.len(), 2);
    assert_eq!(plan[0].spec_index, 1);
    assert_eq!(plan[0].kind, ProviderKind::OpenAi);
    assert_eq!(plan[0].info.provider_type, "openrouter");
    assert_eq!(plan[0].info.models, vec!["a/b", "c/d"]);
    assert_eq!(plan[0].info.default_model, "a/b");
    assert_eq!(plan[1].kind, ProviderKind::Anthropic);
    assert_eq!(plan[1].info.models, vec!["sonnet"]);
    assert_eq!(plan[1].info.default_model, "sonnet");
}

#[test]
fn llm_errors_and_roles() {
    assert_eq!(LlmError::Api("boom".to_string()).message(), "API error: boom");
    assert_eq!(LlmError::RateLimited.message(), "Rate limited");
    assert_eq!(LlmError::Auth.message(), "Authentication failed");
    assert_eq!(LlmError::ContextLength.message(), "Context length exceeded");
    assert_eq!(LlmError::Request("x".to_string()).message(), "Request failed: x");
    assert_eq!(to_chat_role(&MessageRole::System), ChatRole::System);
    assert_eq!(to_chat_role(&MessageRole::User), ChatRole::User);
}

#[test]
fn legacy_adapter_replays_history() {
    let a = LegacyContextAdapter;
    let history = vec![
        StoredMessage { role: MessageRole::User, content: "hi".into(), thinking_content: None },
        StoredMessage { role: MessageRole::Assistant, content: "yo".into(), thinking_content: Some("t".into()) },
    ];
    let tools = vec![ToolDefinition {
        name: "git".into(),
        description: "d".into(),
        input_schema: serde_json::Value::Bool(true),
    }];
    let input = a.build_turn_input(&history, &tools);
    assert_eq!(input.messages.len(), 2);
    assert_eq!(input.messages[1].role, ChatRole::Assistant);
    assert_eq!(input.messages[1].reasoning_content.as_deref(), Some("t"));
    assert_eq!(input.tools[0].name, "git");
    assert_eq!(input.tools[0].input_schema, serde_json::Value::Bool(true));
    let mut msgs: Vec<ChatMessage> = input.messages;
    a.handle_tool_loop_step("call-1", "out", &mut msgs);
    assert_eq!(msgs.len(), 3);
    assert_eq!(msgs[2].role, ChatRole::Tool);
    assert_eq!(msgs[2].tool_call_id.as_deref(), Some("call-1"));
    assert!(!a.finalize_turn(""));
    assert!(a.finalize_turn("x"));
}

#[test]
fn models_resolve_from_the_request_then_the_provider_default() {
    let cfg = ProviderRegistryConfig {
        providers: vec![spec("openai", "main", "gpt-x", &[]), spec("anthropic", "second", "", &["m1", "m2"])],
        verbose_logging: false,
        wire_log_path: None,
    };
    let plan = plan_providers(&cfg);
    assert_eq!(squire::registry::resolve_model(&plan, "main", "explicit"), "explicit");
    assert_eq!(squire::registry::resolve_model(&plan, "main", ""), "gpt-x");
    assert_eq!(squire::registry::resolve_model(&plan, "second", ""), "m1");
    assert_eq!(squire::registry::resolve_model(&plan, "nope", ""), "");
    assert_eq!(squire::registry::default_name(&plan), Some("main".to_string()));
    assert_eq!(squire::registry::default_name(&vec![]), None);
    assert_eq!(squire::registry::find_entry(&plan, "second"), Some(1));
}

#[test]
fn openai_compatible_providers_accept_plain_model_names() {
    assert!(squire::openai::supports_model("gpt-4o"));
    assert!(squire::openai::supports_model("o3-mini"));
    assert!(squire::openai::supports_model("deepseek-chat"));
    assert!(!squire::openai::supports_model("   "));
    assert!(!squire::openai::supports_model("my model"));
}
