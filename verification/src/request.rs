//! The settings of the model and what each chat completion request carries besides the
//! messages.
use vstd::prelude::*;
use vstd::string::StringSliceAdditionalSpecFns;
use crate::budget::{sat_sub, SAFETY_MARGIN};
use crate::text::{lit, push_all, slice_copy, bytes_eq, trim_end_byte, trim_end_byte_len};
use crate::json::{JsonNode, JsonView, parse_json, parse_str, json_node, json_str, texts_view};

verus! {

/// The reply's token limit where the model sets none.
pub const DEFAULT_MAX_TOKENS: u32 = 4096;

/// The context window where the model sets none.
pub const DEFAULT_CONTEXT_WINDOW: u64 = 8192;

/// A `customParams` entry of the model: its `key` and `value`, where they are strings.
pub struct CustomParam {
    pub key: Option<Vec<u8>>,
    pub value: Option<Vec<u8>>,
}

/// The settings of the model, where they have the expected JSON type (`maxTokens` and
/// `contextWindow` as unsigned integers, the others as strings).
pub struct ModelConfig {
    pub endpoint: Option<Vec<u8>>,
    pub identifier: Option<Vec<u8>>,
    pub max_tokens: Option<u64>,
    pub context_window: Option<u64>,
    pub thinking_budget: Option<Vec<u8>>,
    pub api_key: Option<Vec<u8>>,
    pub custom_params: Vec<CustomParam>,
}

pub open spec fn opt_bytes(o: Option<Vec<u8>>) -> Option<Seq<u8>> {
    match o {
        Some(v) => Some(v@),
        None => None,
    }
}

/// The endpoint; `http://localhost:11434/v1` where the model sets none.
pub open spec fn endpoint_of(cfg: ModelConfig) -> Seq<u8> {
    match cfg.endpoint {
        Some(e) => e@,
        None => "http://localhost:11434/v1".spec_bytes(),
    }
}

/// The model identifier; empty where the model sets none.
pub open spec fn identifier_of(cfg: ModelConfig) -> Seq<u8> {
    match cfg.identifier {
        Some(i) => i@,
        None => Seq::<u8>::empty(),
    }
}

/// `maxTokens`, cut to `u32` as `as u32` cuts it.
pub open spec fn max_tokens_of(cfg: ModelConfig) -> Option<u32> {
    match cfg.max_tokens {
        Some(v) => Some(v as u32),
        None => None,
    }
}

/// `contextWindow` (8192 where the model sets none), as `usize`.
pub open spec fn context_window_of(cfg: ModelConfig) -> usize {
    match cfg.context_window {
        Some(v) => v as usize,
        None => DEFAULT_CONTEXT_WINDOW as usize,
    }
}

/// The tokens reserved for the reply: `maxTokens`, or 4096.
pub open spec fn output_reserve_of(cfg: ModelConfig) -> usize {
    match max_tokens_of(cfg) {
        Some(m) => m as usize,
        None => DEFAULT_MAX_TOKENS as usize,
    }
}

/// The reasoning effort: `thinkingBudget`, unless it is `"none"`.
pub open spec fn reasoning_effort_of(cfg: ModelConfig) -> Option<Seq<u8>> {
    match cfg.thinking_budget {
        Some(b) => if b@ != "none".spec_bytes() { Some(b@) } else { None },
        None => None,
    }
}

/// The endpoint.
pub fn endpoint(cfg: &ModelConfig) -> (r: Vec<u8>)
    ensures
        r@ == endpoint_of(*cfg),
{
    match &cfg.endpoint {
        Some(e) => {
            assert(e@.subrange(0, e@.len() as int) =~= e@);
            slice_copy(e.as_slice(), 0, e.len())
        },
        None => lit("http://localhost:11434/v1"),
    }
}

/// The model identifier.
pub fn identifier(cfg: &ModelConfig) -> (r: Vec<u8>)
    ensures
        r@ == identifier_of(*cfg),
{
    match &cfg.identifier {
        Some(i) => {
            assert(i@.subrange(0, i@.len() as int) =~= i@);
            slice_copy(i.as_slice(), 0, i.len())
        },
        None => Vec::new(),
    }
}

/// `maxTokens` as `u32`.
pub fn max_tokens(cfg: &ModelConfig) -> (r: Option<u32>)
    ensures
        r == max_tokens_of(*cfg),
{
    match cfg.max_tokens {
        Some(v) => Some(v as u32),
        None => None,
    }
}

/// The context window.
pub fn context_window(cfg: &ModelConfig) -> (r: usize)
    ensures
        r == context_window_of(*cfg),
{
    match cfg.context_window {
        Some(v) => v as usize,
        None => DEFAULT_CONTEXT_WINDOW as usize,
    }
}

/// The tokens reserved for the reply.
pub fn output_reserve(cfg: &ModelConfig) -> (r: usize)
    ensures
        r == output_reserve_of(*cfg),
{
    match max_tokens(cfg) {
        Some(m) => m as usize,
        None => DEFAULT_MAX_TOKENS as usize,
    }
}

/// The reasoning effort.
pub fn reasoning_effort(cfg: &ModelConfig) -> (r: Option<Vec<u8>>)
    ensures
        opt_bytes(r) == reasoning_effort_of(*cfg),
{
    match &cfg.thinking_budget {
        Some(b) => {
            let none = lit("none");
            if !bytes_eq(b.as_slice(), none.as_slice()) {
                assert(b@.subrange(0, b@.len() as int) =~= b@);
                Some(slice_copy(b.as_slice(), 0, b.len()))
            } else {
                None
            }
        },
        None => None,
    }
}

/// The strings of a JSON text that is an array of strings (as
/// `serde_json::from_str::<Vec<String>>` reads it); `None` for any other text.
pub open spec fn json_string_list(text: Seq<u8>) -> Option<Seq<Seq<u8>>> {
    match json_node(text) {
        Some(JsonView::Array(items)) => if forall|k: int| 0 <= k < items.len() ==> (#[trigger] json_str(items[k])) is Some {
            Some(items.map_values(|t: Seq<u8>| json_str(t)->0))
        } else {
            None
        },
        _ => None,
    }
}

pub open spec fn list_view(v: Seq<Vec<u8>>) -> Seq<Seq<u8>> {
    v.map_values(|x: Vec<u8>| x@)
}

pub open spec fn opt_list_view(o: Option<Vec<Vec<u8>>>) -> Option<Seq<Seq<u8>>> {
    match o {
        Some(v) => Some(list_view(v@)),
        None => None,
    }
}

/// The strings of a JSON array of strings (see `json_string_list`).
pub fn parse_string_list(text: &[u8]) -> (r: Option<Vec<Vec<u8>>>)
    ensures
        opt_list_view(r) == json_string_list(text@),
{
    let items = match parse_json(text) {
        Some(JsonNode::Array(items)) => items,
        _ => return None,
    };
    let ghost iv = texts_view(items@);
    let mut out: Vec<Vec<u8>> = Vec::new();
    let mut i: usize = 0;
    while i < items.len()
        invariant
            i <= items@.len(),
            iv == texts_view(items@),
            json_node(text@) == Some(JsonView::Array(iv)),
            forall|k: int| 0 <= k < i ==> (#[trigger] json_str(iv[k])) is Some,
            list_view(out@) == iv.subrange(0, i as int).map_values(|t: Seq<u8>| json_str(t)->0),
        decreases items@.len() - i,
    {
        assert(iv[i as int] == items@[i as int]@);
        match parse_str(items[i].as_slice()) {
            Some(s) => {
                let ghost before = list_view(out@);
                let ghost sv = s@;
                out.push(s);
                assert(list_view(out@) =~= before.push(sv));
                assert(iv.subrange(0, i + 1) =~= iv.subrange(0, i as int).push(iv[i as int]));
                assert(list_view(out@) =~= iv.subrange(0, i + 1).map_values(|t: Seq<u8>| json_str(t)->0));
            },
            None => {
                assert(json_str(iv[i as int]) is None);
                assert(!(forall|k: int| 0 <= k < iv.len() ==> (#[trigger] json_str(iv[k])) is Some));
                return None;
            },
        }
        i = i + 1;
    }
    assert(iv.subrange(0, iv.len() as int) =~= iv);
    Some(out)
}

/// The stop sequences that a parameter adds: the strings of its value, where its key is
/// `"stop"` and its value parses as a JSON array of strings.
pub open spec fn param_stop_tokens(p: CustomParam) -> Seq<Seq<u8>> {
    match (p.key, p.value) {
        (Some(k), Some(v)) => if k@ == "stop".spec_bytes() {
            match json_string_list(v@) {
                Some(l) => l,
                None => seq![],
            }
        } else {
            seq![]
        },
        _ => seq![],
    }
}

/// The stop sequences of the parameters, in their order.
pub open spec fn stop_tokens_of(ps: Seq<CustomParam>) -> Seq<Seq<u8>>
    decreases ps.len(),
{
    if ps.len() == 0 {
        seq![]
    } else {
        stop_tokens_of(ps.drop_last()) + param_stop_tokens(ps.last())
    }
}

/// Adds the strings of a parsed stop list (none where it did not parse).
pub fn add_stop_tokens(tokens: &mut Vec<Vec<u8>>, parsed: Option<Vec<Vec<u8>>>)
    ensures
        list_view(final(tokens)@) == list_view(old(tokens)@) + match opt_list_view(parsed) {
            Some(l) => l,
            None => seq![],
        },
{
    match parsed {
        Some(v) => {
            let ghost lv = list_view(v@);
            let ghost t0 = list_view(tokens@);
            let mut v = v;
            tokens.append(&mut v);
            assert(list_view(tokens@) =~= t0 + lv);
        },
        None => {
            assert(list_view(tokens@) =~= list_view(tokens@) + Seq::<Seq<u8>>::empty());
        },
    }
}

/// The stop sequences of the model's parameters.
pub fn stop_tokens(params: &Vec<CustomParam>) -> (r: Vec<Vec<u8>>)
    ensures
        list_view(r@) == stop_tokens_of(params@),
{
    let stop = lit("stop");
    let mut r: Vec<Vec<u8>> = Vec::new();
    let mut i: usize = 0;
    while i < params.len()
        invariant
            i <= params@.len(),
            stop@ == "stop".spec_bytes(),
            list_view(r@) == stop_tokens_of(params@.subrange(0, i as int)),
        decreases params@.len() - i,
    {
        let p = &params[i];
        let ghost before = list_view(r@);
        match (&p.key, &p.value) {
            (Some(k), Some(v)) => {
                if bytes_eq(k.as_slice(), stop.as_slice()) {
                    let parsed = parse_string_list(v.as_slice());
                    add_stop_tokens(&mut r, parsed);
                }
            },
            _ => {},
        }
        proof {
            let pre = params@.subrange(0, i as int);
            let post = params@.subrange(0, i + 1);
            assert(post.drop_last() =~= pre);
            assert(post.last() == params@[i as int]);
            assert(list_view(r@) =~= before + param_stop_tokens(params@[i as int]));
        }
        i = i + 1;
    }
    assert(params@.subrange(0, params@.len() as int) =~= params@);
    r
}

/// Whether a text is one JSON value (as `serde_json::from_str::<Value>` reads it).
pub open spec fn json_parses(text: Seq<u8>) -> bool {
    json_node(text) is Some
}

/// Whether a text is one JSON value (see `json_parses`).
pub fn parses_as_json(text: &[u8]) -> (b: bool)
    ensures
        b == json_parses(text@),
{
    parse_json(text).is_some()
}

/// The extra body fields of the parameters, in order, as `(key, value text, whether the value
/// parses as JSON)`: every parameter but those whose key is `"stop"` or empty (a missing key
/// or value counts as empty). A value that parses goes into the body as that JSON value, any
/// other as a string.
pub open spec fn extra_params_of(ps: Seq<CustomParam>) -> Seq<(Seq<u8>, Seq<u8>, bool)>
    decreases ps.len(),
{
    if ps.len() == 0 {
        seq![]
    } else {
        let p = ps.last();
        let key = match p.key {
            Some(k) => k@,
            None => Seq::<u8>::empty(),
        };
        let value = match p.value {
            Some(v) => v@,
            None => Seq::<u8>::empty(),
        };
        extra_params_of(ps.drop_last()) + if key == "stop".spec_bytes() || key.len() == 0 {
            Seq::<(Seq<u8>, Seq<u8>, bool)>::empty()
        } else {
            seq![(key, value, json_parses(value))]
        }
    }
}

/// A field added to the request body: its key, its value's text, and whether that text is
/// a JSON value (which then goes into the body in place of the text).
pub struct ExtraParam {
    pub key: Vec<u8>,
    pub value: Vec<u8>,
    pub is_json: bool,
}

pub open spec fn extras_view(v: Seq<ExtraParam>) -> Seq<(Seq<u8>, Seq<u8>, bool)> {
    v.map_values(|e: ExtraParam| (e.key@, e.value@, e.is_json))
}

fn copy_or_empty(o: &Option<Vec<u8>>) -> (r: Vec<u8>)
    ensures
        r@ == match *o {
            Some(v) => v@,
            None => Seq::<u8>::empty(),
        },
{
    match o {
        Some(v) => {
            assert(v@.subrange(0, v@.len() as int) =~= v@);
            slice_copy(v.as_slice(), 0, v.len())
        },
        None => Vec::new(),
    }
}

/// The extra body fields of the model's parameters.
pub fn extra_params(params: &Vec<CustomParam>) -> (r: Vec<ExtraParam>)
    ensures
        extras_view(r@) == extra_params_of(params@),
{
    let stop = lit("stop");
    let mut r: Vec<ExtraParam> = Vec::new();
    let mut i: usize = 0;
    while i < params.len()
        invariant
            i <= params@.len(),
            stop@ == "stop".spec_bytes(),
            extras_view(r@) == extra_params_of(params@.subrange(0, i as int)),
        decreases params@.len() - i,
    {
        let p = &params[i];
        let ghost before = extras_view(r@);
        let key = copy_or_empty(&p.key);
        let value = copy_or_empty(&p.value);
        let skip = bytes_eq(key.as_slice(), stop.as_slice()) || key.len() == 0;
        let ghost kv = key@;
        let ghost vv = value@;
        if !skip {
            let is_json = parses_as_json(value.as_slice());
            r.push(ExtraParam { key, value, is_json });
        }
        proof {
            let pre = params@.subrange(0, i as int);
            let post = params@.subrange(0, i + 1);
            assert(post.drop_last() =~= pre);
            assert(post.last() == params@[i as int]);
            if skip {
                assert(extras_view(r@) =~= before + Seq::<(Seq<u8>, Seq<u8>, bool)>::empty());
            } else {
                assert(extras_view(r@) =~= before + seq![(kv, vv, json_parses(vv))]);
            }
        }
        i = i + 1;
    }
    assert(params@.subrange(0, params@.len() as int) =~= params@);
    r
}

/// The `max_tokens` of the body: the model's, capped by the window less the safety margin
/// (cut to `u32`); 4096 where the model sets none.
pub open spec fn request_max_tokens(cfg: ModelConfig) -> u32 {
    match max_tokens_of(cfg) {
        Some(mt) => {
            let cap = sat_sub(context_window_of(cfg) as nat, SAFETY_MARGIN as nat) as usize as u32;
            if mt <= cap { mt } else { cap }
        },
        None => DEFAULT_MAX_TOKENS,
    }
}

/// The `max_tokens` of the body.
pub fn body_max_tokens(cfg: &ModelConfig) -> (r: u32)
    ensures
        r == request_max_tokens(*cfg),
{
    match max_tokens(cfg) {
        Some(mt) => {
            let cap = context_window(cfg).saturating_sub(SAFETY_MARGIN) as u32;
            if mt <= cap { mt } else { cap }
        },
        None => DEFAULT_MAX_TOKENS,
    }
}

/// The URL of the chat completions: the endpoint without trailing `/`, then
/// `/chat/completions`.
pub open spec fn completions_url(cfg: ModelConfig) -> Seq<u8> {
    trim_end_byte(endpoint_of(cfg), 47u8) + "/chat/completions".spec_bytes()
}

/// The URL of the chat completions.
pub fn completions_url_of(cfg: &ModelConfig) -> (r: Vec<u8>)
    ensures
        r@ == completions_url(*cfg),
{
    let e = endpoint(cfg);
    let end = trim_end_byte_len(e.as_slice(), 47u8);
    let mut r = slice_copy(e.as_slice(), 0, end);
    let tail = lit("/chat/completions");
    push_all(&mut r, tail.as_slice());
    r
}

/// The bearer token: the `apiKey`, where it is not empty.
pub open spec fn bearer_of(cfg: ModelConfig) -> Option<Seq<u8>> {
    match cfg.api_key {
        Some(k) => if k@.len() > 0 { Some(k@) } else { None },
        None => None,
    }
}

/// The bearer token.
pub fn bearer(cfg: &ModelConfig) -> (r: Option<Vec<u8>>)
    ensures
        opt_bytes(r) == bearer_of(*cfg),
{
    match &cfg.api_key {
        Some(k) => {
            if k.len() > 0 {
                assert(k@.subrange(0, k@.len() as int) =~= k@);
                Some(slice_copy(k.as_slice(), 0, k.len()))
            } else {
                None
            }
        },
        None => None,
    }
}

/// Everything a chat completion request carries besides its messages and temperature.
pub struct RequestPlan {
    pub url: Vec<u8>,
    pub model: Vec<u8>,
    pub max_tokens: u32,
    /// The `stop` field, present where there are stop sequences.
    pub stop: Option<Vec<Vec<u8>>>,
    pub reasoning_effort: Option<Vec<u8>>,
    /// Fields set last, in order, each replacing any field of the same key.
    pub extras: Vec<ExtraParam>,
    pub bearer: Option<Vec<u8>>,
}

/// Plans the request of the model's settings.
pub fn plan_request(cfg: &ModelConfig) -> (r: RequestPlan)
    ensures
        r.url@ == completions_url(*cfg),
        r.model@ == identifier_of(*cfg),
        r.max_tokens == request_max_tokens(*cfg),
        match r.stop {
            Some(s) => list_view(s@) == stop_tokens_of(cfg.custom_params@) && s@.len() > 0,
            None => stop_tokens_of(cfg.custom_params@).len() == 0,
        },
        opt_bytes(r.reasoning_effort) == reasoning_effort_of(*cfg),
        extras_view(r.extras@) == extra_params_of(cfg.custom_params@),
        opt_bytes(r.bearer) == bearer_of(*cfg),
{
    let stops = stop_tokens(&cfg.custom_params);
    let stop = if stops.len() > 0 { Some(stops) } else { None };
    RequestPlan {
        url: completions_url_of(cfg),
        model: identifier(cfg),
        max_tokens: body_max_tokens(cfg),
        stop,
        reasoning_effort: reasoning_effort(cfg),
        extras: extra_params(&cfg.custom_params),
        bearer: bearer(cfg),
    }
}

/// The reply's limit in a request never exceeds the model's own `maxTokens` (as `u32`) nor
/// the window less the safety margin (as `u32`).
pub proof fn law_max_tokens_capped(cfg: ModelConfig)
    ensures
        max_tokens_of(cfg) matches Some(mt) ==> request_max_tokens(cfg) <= mt
            && request_max_tokens(cfg) <= sat_sub(context_window_of(cfg) as nat, SAFETY_MARGIN as nat) as usize as u32,
{
}

/// The extra body fields never carry the `stop` parameter (it goes into the stop sequences)
/// nor an empty key.
pub proof fn law_extras_skip_stop(ps: Seq<CustomParam>)
    ensures
        forall|i: int| 0 <= i < extra_params_of(ps).len() ==> {
            let k = #[trigger] extra_params_of(ps)[i].0;
            k != "stop".spec_bytes() && k.len() > 0
        },
    decreases ps.len(),
{
    if ps.len() > 0 {
        law_extras_skip_stop(ps.drop_last());
        let prev = extra_params_of(ps.drop_last());
        let all = extra_params_of(ps);
        assert forall|i: int| 0 <= i < all.len() implies {
            let k = #[trigger] all[i].0;
            k != "stop".spec_bytes() && k.len() > 0
        } by {
            if i < prev.len() {
                assert(all[i] == prev[i]);
            }
        }
    }
}

} // verus!
