use forge_chat::request::{
    add_stop_tokens, context_window, output_reserve, plan_request, stop_tokens, CustomParam, ModelConfig,
};

fn b(s: &str) -> Vec<u8> {
    s.as_bytes().to_vec()
}

fn param(k: Option<&str>, v: Option<&str>) -> CustomParam {
    CustomParam { key: k.map(b), value: v.map(b) }
}

fn config() -> ModelConfig {
    ModelConfig {
        endpoint: None,
        identifier: None,
        max_tokens: None,
        context_window: None,
        thinking_budget: None,
        api_key: None,
        custom_params: Vec::new(),
    }
}

#[test]
fn defaults() {
    let cfg = config();
    let plan = plan_request(&cfg);
    assert_eq!(plan.url, b("http://localhost:11434/v1/chat/completions"));
    assert_eq!(plan.model, Vec::<u8>::new());
    assert_eq!(plan.max_tokens, 4096);
    assert!(plan.stop.is_none());
    assert!(plan.reasoning_effort.is_none());
    assert!(plan.extras.is_empty());
    assert!(plan.bearer.is_none());
    assert_eq!(context_window(&cfg), 8192);
    assert_eq!(output_reserve(&cfg), 4096);
}

#[test]
fn max_tokens_are_capped_by_the_window() {
    let mut cfg = config();
    cfg.max_tokens = Some(10000);
    cfg.context_window = Some(4000);
    assert_eq!(plan_request(&cfg).max_tokens, 3500);
    cfg.max_tokens = Some(1000);
    assert_eq!(plan_request(&cfg).max_tokens, 1000);
    cfg.context_window = Some(100);
    assert_eq!(plan_request(&cfg).max_tokens, 0);
    // `as u32` keeps the low 32 bits
    cfg.max_tokens = Some((1u64 << 32) + 5);
    assert_eq!(output_reserve(&cfg), 5);
}

#[test]
fn endpoint_key_effort_and_params() {
    let mut cfg = config();
    cfg.endpoint = Some(b("https://api.example.com/v1//"));
    cfg.identifier = Some(b("m-1"));
    cfg.api_key = Some(b("SECRET-REDACTED"));
    cfg.thinking_budget = Some(b("high"));
    cfg.custom_params = vec![
        param(Some("stop"), Some("[\"<|end|>\", \"###\"]")),
        param(Some("top_k"), Some("40")),
        param(Some(""), Some("1")),
        param(None, Some("1")),
        param(Some("stop"), Some("not json")),
        param(Some("mirostat"), None),
    ];
    let plan = plan_request(&cfg);
    assert_eq!(plan.url, b("https://api.example.com/v1/chat/completions"));
    assert_eq!(plan.model, b("m-1"));
    assert_eq!(plan.bearer, Some(b("SECRET-REDACTED")));
    assert_eq!(plan.reasoning_effort, Some(b("high")));
    assert_eq!(plan.stop, Some(vec![b("<|end|>"), b("###")]));
    let extras: Vec<(Vec<u8>, Vec<u8>, bool)> = plan.extras.into_iter().map(|e| (e.key, e.value, e.is_json)).collect();
    assert_eq!(extras, vec![(b("top_k"), b("40"), true), (b("mirostat"), Vec::new(), false)]);
}

#[test]
fn thinking_budget_none_and_empty_key() {
    let mut cfg = config();
    cfg.thinking_budget = Some(b("none"));
    cfg.api_key = Some(Vec::new());
    let plan = plan_request(&cfg);
    assert!(plan.reasoning_effort.is_none());
    assert!(plan.bearer.is_none());
}

#[test]
fn stop_tokens_parse_json_lists() {
    let params = vec![
        param(Some("stop"), Some("[\"a\"]")),
        param(Some("stop"), Some("[1, 2]")),
        param(Some("stop"), Some("[\"b\", \"c\"]")),
    ];
    assert_eq!(stop_tokens(&params), vec![b("a"), b("b"), b("c")]);
    let mut t = vec![b("x")];
    add_stop_tokens(&mut t, Some(vec![b("y")]));
    add_stop_tokens(&mut t, None);
    assert_eq!(t, vec![b("x"), b("y")]);
}

#[test]
fn extra_values_that_parse_as_json() {
    let mut cfg = config();
    cfg.custom_params = vec![
        param(Some("a"), Some("{\"x\": [1, 2]}")),
        param(Some("b"), Some("hello")),
        param(Some("c"), Some("true")),
        param(Some("d"), Some("\"quoted\"")),
        param(Some("e"), Some("1 2")),
    ];
    let plan = plan_request(&cfg);
    let flags: Vec<bool> = plan.extras.iter().map(|e| e.is_json).collect();
    assert_eq!(flags, vec![true, false, true, true, false]);
}
