use adaptive_card::assets::{candidate_asset_paths, candidate_catalog_paths, settle_search};
use adaptive_card::envelope::{locate_invocation_candidate, read_validation_mode};
use adaptive_card::trace::build_trace_event;
use adaptive_card::binding::{normalize_path, parse_binding_path, BindingContext};
use adaptive_card::error::ComponentError;
use adaptive_card::expression::eval_expression;
use adaptive_card::handle_invocation;
use adaptive_card::interaction::{normalize_inputs, plan_interaction};
use adaptive_card::json::{Json, Number};
use adaptive_card::json_read::parse_json;
use adaptive_card::json_text::to_json_string;
use adaptive_card::model::{
    AdaptiveCardInvocation, CardInteraction, CardInteractionType, CardSource, CardSpec,
    InvocationMode, StateUpdateOp, ValidationMode,
};
use adaptive_card::render::{
    AssetResolution, BindingSummary, LoadedCard, extract_expression, extract_single_placeholder, hash_json, is_reserved_handlebars_key,
    is_simple_expression, render_card,
};
use adaptive_card::state_store::StateStore;
use adaptive_card::trace::TraceOptions;
use adaptive_card::validation::validate_card;

fn j(text: &str) -> Json {
    parse_json(text).expect("test JSON must parse")
}

fn ctx(payload: &str, session: &str, state: &str) -> BindingContext {
    BindingContext {
        payload: j(payload),
        session: j(session),
        state: j(state),
        template_params: j("{}"),
    }
}

fn inline(card: Json) -> AdaptiveCardInvocation {
    AdaptiveCardInvocation {
        card_source: CardSource::Inline,
        card_spec: CardSpec {
            inline_json: Some(card),
            asset_path: None,
            catalog_name: None,
            template_params: None,
            asset_registry: None,
        },
        node_id: None,
        payload: j("{}"),
        session: j("{}"),
        state: j("{}"),
        interaction: None,
        mode: InvocationMode::RenderAndValidate,
        validation_mode: ValidationMode::Warn,
        envelope: None,
    }
}

fn no_trace() -> TraceOptions {
    TraceOptions { enabled: false, capture_inputs: false }
}

fn interaction(kind: CardInteractionType, action: &str, raw: &str, meta: &str) -> CardInteraction {
    CardInteraction {
        enabled: None,
        interaction_type: kind,
        action_id: action.to_string(),
        verb: None,
        raw_inputs: j(raw),
        card_instance_id: "card-9".to_string(),
        metadata: j(meta),
    }
}

#[test]
fn default_coalesces_missing_session_value() {
    let empty = ctx("{}", "{}", "{}");
    assert_eq!(empty.lookup(r#"session.user.name||"Guest""#), Some(Json::Str("Guest".into())));
    let ada = ctx("{}", r#"{"user":{"name":"Ada"}}"#, "{}");
    assert_eq!(ada.lookup(r#"session.user.name||"Guest""#), Some(Json::Str("Ada".into())));
    let null = ctx("{}", r#"{"user":{"name":null}}"#, "{}");
    assert_eq!(null.lookup(r#"session.user.name||"Guest""#), Some(Json::Str("Guest".into())));
    assert_eq!(null.lookup("session.user.name"), Some(Json::Null));
    assert_eq!(empty.lookup("session.user.name"), None);
    assert_eq!(empty.lookup("session.x || 42"), Some(Json::Number(Number::PosInt(42))));
    assert_eq!(empty.lookup("session.x || not json"), Some(Json::Str("not json".into())));
}

#[test]
fn unrooted_paths_probe_roots_in_order() {
    let c = ctx(r#"{"a":{"items":[10,20]}}"#, r#"{"a":1,"b":"s"}"#, r#"{"b":"t","c":3}"#);
    assert_eq!(c.lookup("a.items[1]"), Some(Json::Number(Number::PosInt(20))));
    assert_eq!(c.lookup("b"), Some(Json::Str("s".into())));
    assert_eq!(c.lookup("c"), Some(Json::Number(Number::PosInt(3))));
    assert_eq!(c.lookup("payload.a.items.0"), Some(Json::Number(Number::PosInt(10))));
    assert_eq!(c.lookup("payload.a.items.5"), None);
}

#[test]
fn ternary_selects_by_equality() {
    let expr = r#"payload.status == "ok" ? "green" : "red""#;
    let ok = ctx(r#"{"status":"ok"}"#, "{}", "{}");
    assert_eq!(eval_expression(&ok, expr), Some(Json::Str("green".into())));
    let bad = ctx(r#"{"status":"down"}"#, "{}", "{}");
    assert_eq!(eval_expression(&bad, expr), Some(Json::Str("red".into())));
    assert_eq!(eval_expression(&ok, r#"payload.status == "ok""#), Some(Json::Bool(true)));
    assert_eq!(eval_expression(&ok, r#""a:b" == "a:b" ? "x?y" : "z""#), Some(Json::Str("x?y".into())));
    assert_eq!(eval_expression(&ok, "payload.missing == 1"), None);
    assert_eq!(eval_expression(&ok, "payload.status ? 1"), None);
}

#[test]
fn non_string_expression_result_is_stringified() {
    let card = j(r#"{"t":"${payload.n == 2 ? [1,true] : 0}","u":"${payload.n}"}"#);
    let mut inv = inline(card);
    inv.payload = j(r#"{"n":2}"#);
    let out = render_card(&inv, None).expect("render");
    assert_eq!(out.card.get("t"), Some(&Json::Str("[1,true]".into())));
    assert_eq!(out.card.get("u"), Some(&Json::Number(Number::PosInt(2))));
}

#[test]
fn whole_string_placeholder_keeps_type() {
    let mut inv = inline(j(r#"{"items":"@{payload.list}","n":" @{payload.n} "}"#));
    inv.payload = j(r#"{"list":[1,2],"n":-3}"#);
    let out = render_card(&inv, None).expect("render");
    assert_eq!(out.card.get("items"), Some(&j("[1,2]")));
    assert_eq!(out.card.get("n"), Some(&Json::Number(Number::NegInt(-3))));
}

#[test]
fn unterminated_marker_stays_literal() {
    let mut inv = inline(j(r#"{"t":"a @{payload.x} b ${oops"}"#));
    inv.payload = j(r#"{"x":{"y":1}}"#);
    let out = render_card(&inv, None).expect("render");
    assert_eq!(out.card.get("t"), Some(&Json::Str(r#"a {"y":1} b ${oops"#.into())));
}

#[test]
fn missing_binding_is_a_hard_error() {
    let inv = inline(j(r#"{"t":"Hello @{payload.nobody}"}"#));
    assert!(matches!(render_card(&inv, None), Err(ComponentError::Binding(_))));
    let whole = inline(j(r#"{"t":"${payload.nobody}"}"#));
    assert!(matches!(render_card(&whole, None), Err(ComponentError::Binding(_))));
}

#[test]
fn handlebars_pass_runs_before_bindings() {
    let mut inv = inline(j(r#"{"t":"Hi {{payload.name}}","u":"{{#if state.flag}}on{{else}}off{{/if}}"}"#));
    inv.payload = j(r#"{"name":"Ada"}"#);
    inv.state = j(r#"{"flag":true,"input":{"extra":"E","payload":"ignored"}}"#);
    let out = render_card(&inv, None).expect("render");
    assert_eq!(out.card.get("t"), Some(&Json::Str("Hi Ada".into())));
    assert_eq!(out.card.get("u"), Some(&Json::Str("on".into())));
    assert!(out.binding_summary.handlebars_expansions >= 2);
}

#[test]
fn plain_inline_card_renders_unchanged() {
    let text = r#"{"type":"AdaptiveCard","version":"1.6","body":[{"type":"TextBlock","text":"plain {text} $ @"},{"n":1.5,"m":[true,null]}]}"#;
    let out = render_card(&inline(j(text)), None).expect("render");
    assert_eq!(out.card, j(text));
    let h = out.asset_resolution.hash.expect("hash");
    assert!(h.starts_with("blake3:"));
    assert_eq!(h.len(), 7 + 64);
    assert_eq!(out.asset_resolution.mode, "inline");
}

#[test]
fn content_hash_depends_on_content() {
    let a = hash_json(&j(r#"{"a":1}"#));
    let b = hash_json(&j(r#"{"a":2}"#));
    assert_ne!(a, b);
    assert_eq!(a, hash_json(&j(r#"{ "a" : 1 }"#)));
    assert!(a["blake3:".len()..].chars().all(|c| c.is_ascii_hexdigit()));
}

#[test]
fn missing_inline_document_is_invalid_input() {
    let mut inv = inline(j("{}"));
    inv.card_spec.inline_json = None;
    assert!(matches!(render_card(&inv, None), Err(ComponentError::InvalidInput(_))));
    let mut asset = inline(j("{}"));
    asset.card_source = CardSource::Asset;
    asset.card_spec.asset_path = Some("cards/x.json".into());
    assert!(matches!(render_card(&asset, None), Err(ComponentError::AssetNotFound(_))));
    asset.card_spec.asset_path = None;
    assert!(matches!(render_card(&asset, None), Err(ComponentError::InvalidInput(_))));
}

#[test]
fn error_mode_fails_cards_with_issues() {
    let mut inv = inline(j(r#"{"type":"Other"}"#));
    inv.validation_mode = ValidationMode::Error;
    let mut store = StateStore::new();
    let r = handle_invocation(inv, &mut store, None, no_trace());
    assert!(matches!(r, Err(ComponentError::CardValidation(ref issues)) if issues.len() == 2));
    let mut validate_only = inline(j(r#"{"type":"AdaptiveCard","version":"1"}"#));
    validate_only.mode = InvocationMode::Validate;
    let r2 = handle_invocation(validate_only, &mut store, None, no_trace()).expect("validate");
    assert!(r2.rendered_card.is_none());
}

#[test]
fn blank_interaction_ids_are_rejected() {
    let mut inv = inline(j(r#"{"type":"AdaptiveCard","version":"1"}"#));
    let mut i = interaction(CardInteractionType::Submit, "  ", "{}", "{}");
    inv.interaction = Some(i);
    let mut store = StateStore::new();
    let r = handle_invocation(inv, &mut store, None, no_trace());
    assert!(matches!(r, Err(ComponentError::InteractionInvalid(_))));
    let mut inv2 = inline(j(r#"{"type":"AdaptiveCard","version":"1"}"#));
    i = interaction(CardInteractionType::Submit, "a", "{}", "{}");
    i.card_instance_id = "".into();
    inv2.interaction = Some(i);
    let r2 = handle_invocation(inv2, &mut store, None, no_trace());
    assert!(matches!(r2, Err(ComponentError::InteractionInvalid(_))));
    assert_eq!(store.len(), 0);
}

#[test]
fn disabled_interaction_only_renders() {
    let mut inv = inline(j(r#"{"type":"AdaptiveCard","version":"1"}"#));
    let mut i = interaction(CardInteractionType::Submit, "a", "{}", "{}");
    i.enabled = Some(false);
    inv.interaction = Some(i);
    let mut store = StateStore::new();
    let r = handle_invocation(inv, &mut store, None, no_trace()).expect("render");
    assert!(r.event.is_none());
    assert!(r.state_updates.is_empty());
    assert_eq!(store.len(), 0);
}

#[test]
fn submit_plan_merges_inputs_once() {
    let plan = plan_interaction(&interaction(CardInteractionType::Submit, "go", r#"{"comment":"x"}"#, "{}"));
    assert_eq!(plan.state_updates.len(), 1);
    match &plan.state_updates[0] {
        StateUpdateOp::Merge { path, value } => {
            assert_eq!(path, "form_data");
            assert_eq!(value, &j(r#"{"comment":"x"}"#));
        }
        other => panic!("unexpected update {:?}", other),
    }
    assert_eq!(plan.event.action_id, "go");
    assert_eq!(plan.event.inputs, j(r#"{"comment":"x"}"#));
    assert_eq!(plan.event.card_id, "card-9");
    assert!(plan.session_updates.is_empty());
}

#[test]
fn toggle_plan_sets_visibility_flag() {
    let plan = plan_interaction(&interaction(CardInteractionType::ToggleVisibility, "sec", "{}", r#"{"visible":false}"#));
    assert_eq!(plan.state_updates.len(), 1);
    assert!(matches!(&plan.state_updates[0],
        StateUpdateOp::Assign { path, value } if path == "ui.visibility.sec" && *value == Json::Bool(false)));
    let default_plan = plan_interaction(&interaction(CardInteractionType::ToggleVisibility, "sec", "{}", "{}"));
    assert!(matches!(&default_plan.state_updates[0],
        StateUpdateOp::Assign { value, .. } if *value == Json::Bool(true)));
}

#[test]
fn show_card_and_open_url_plans() {
    let show = plan_interaction(&interaction(CardInteractionType::ShowCard, "more", "{}", r#"{"subcardId":"sub-1","cardId":"c"}"#));
    assert!(matches!(&show.state_updates[0],
        StateUpdateOp::Assign { path, value } if path == "ui.active_show_card.card-9" && *value == Json::Str("sub-1".into())));
    assert_eq!(show.event.subcard_id, Some("sub-1".to_string()));
    assert_eq!(show.event.card_id, "c");
    let open = plan_interaction(&interaction(CardInteractionType::OpenUrl, "u", "null", "{}"));
    assert!(open.state_updates.is_empty());
}

#[test]
fn interaction_persists_one_merged_document() {
    let mut store = StateStore::new();
    let mut inv = inline(j(r#"{"type":"AdaptiveCard","version":"1"}"#));
    inv.state = Json::Null;
    inv.interaction = Some(interaction(CardInteractionType::Submit, "go", r#"{"a":1}"#, "{}"));
    handle_invocation(inv, &mut store, None, no_trace()).expect("first");
    let mut inv2 = inline(j(r#"{"type":"AdaptiveCard","version":"1"}"#));
    inv2.state = Json::Null;
    inv2.interaction = Some(interaction(CardInteractionType::Submit, "go", r#"{"b":2}"#, "{}"));
    handle_invocation(inv2, &mut store, None, no_trace()).expect("second");
    assert_eq!(store.read("adaptive-card:card:card-9"), Some(j(r#"{"form_data":{"a":1,"b":2}}"#)));
}

#[test]
fn raw_inputs_are_normalized() {
    assert_eq!(normalize_inputs(&Json::Null), j("{}"));
    assert_eq!(normalize_inputs(&j(r#"{"k":1}"#)), j(r#"{"k":1}"#));
    assert_eq!(normalize_inputs(&Json::Str(r#"{"k":2}"#.into())), j(r#"{"k":2}"#));
    assert_eq!(normalize_inputs(&Json::Str("plain".into())), j(r#"{"value":"plain"}"#));
    assert_eq!(normalize_inputs(&j("5")), j(r#"{"value":5}"#));
}

#[test]
fn choice_set_needs_choices() {
    let without = j(r#"{"type":"AdaptiveCard","version":"1","body":[{"type":"Input.ChoiceSet","id":"c"}]}"#);
    let issues = validate_card(&without);
    assert!(issues.iter().any(|i| i.code == "missing-choices" && i.path == "/body/0"));
    let with = j(r#"{"type":"AdaptiveCard","version":"1","body":[{"type":"Input.ChoiceSet","id":"c","choices":[{"title":"A","value":"a"}]}]}"#);
    assert!(validate_card(&with).is_empty());
}

#[test]
fn validator_reports_each_rule() {
    let card = j(r#"{"body":{},"actions":3,"x":[
        {"type":"Input.Text"},{"type":"Input.Text","id":"d"},{"type":"Input.Text","id":"d"},
        {"type":"Input.Number","id":"n","min":5,"max":-1},
        {"type":"ColumnSet","columns":[]},{"type":"ColumnSet","columns":1},
        {"type":"Media","sources":[{"url":""}]},{"type":"Media","sources":"s"},{"type":"Media"},
        {"type":"Input.ChoiceSet","id":"c1","choices":[]},{"type":"Input.ChoiceSet","id":"c2","choices":[{"title":"t"}]},
        {"type":"Input.ChoiceSet","id":"c3","choices":{}},
        {"type":"Action.OpenUrl","id":"o"},{"type":"Action.OpenUrl","id":"o","url":"u"},
        {"type":"Action.Execute","data":1},{"type":"Action.ShowCard"},{"type":"Action.ToggleVisibility"}]}"#);
    let codes: Vec<(String, String)> = validate_card(&card).iter().map(|i| (i.code.clone(), i.path.clone())).collect();
    let expect = [
        ("invalid-type", "/type"), ("missing-version", "/version"), ("invalid-body", "/body"),
        ("invalid-actions", "/actions"), ("missing-id", "/x/0"), ("duplicate-id", "/x/2"),
        ("invalid-range", "/x/3"), ("empty-columns", "/x/4"), ("invalid-columns", "/x/5"),
        ("invalid-source", "/x/6"), ("invalid-sources", "/x/7"), ("missing-sources", "/x/8"),
        ("empty-choices", "/x/9"), ("invalid-choice", "/x/10"), ("invalid-choices", "/x/11"),
        ("missing-url", "/x/12"), ("duplicate-action-id", "/x/13"), ("missing-verb", "/x/14"),
        ("invalid-data", "/x/14"), ("missing-card", "/x/15"), ("missing-target-elements", "/x/16"),
    ];
    let want: Vec<(String, String)> = expect.iter().map(|(c, p)| (c.to_string(), p.to_string())).collect();
    assert_eq!(codes, want);
    let root = validate_card(&j("[1]"));
    assert_eq!(root.len(), 1);
    assert_eq!(root[0].code, "invalid-root");
    assert_eq!(root[0].path, "/");
}

#[test]
fn json_text_is_compact_and_escaped() {
    let v = j(r#" { "a" : [ 1 , -2 , 1.5e3 , true , null , "q\"\\\n\u0001é" ] , "b" : { } } "#);
    assert_eq!(to_json_string(&v), r#"{"a":[1,-2,1.5e3,true,null,"q\"\\\n\u0001é"],"b":{}}"#);
    assert_eq!(parse_json("18446744073709551615"), Some(Json::Number(Number::PosInt(u64::MAX))));
    assert_eq!(parse_json("-9223372036854775808"), Some(Json::Number(Number::NegInt(i64::MIN))));
    assert_eq!(parse_json("18446744073709551616"), Some(Json::Number(Number::Float("18446744073709551616".into()))));
    assert_eq!(parse_json(r#""😀""#), Some(Json::Str("😀".into())));
    assert_eq!(parse_json("[1,]"), None);
    assert_eq!(parse_json("01"), None);
    assert_eq!(parse_json(r#"{"a":1} x"#), None);
    assert_eq!(parse_json(r#""\udc00""#), None);
}

#[test]
fn path_helpers() {
    assert_eq!(normalize_path("a[0].b"), "a.0.b");
    assert_eq!(normalize_path(".x[1][2]."), "x.1.2");
    assert_eq!(normalize_path("a...b"), "a..b");
    let (path, default) = parse_binding_path(" a.b || {\"k\":1} || x");
    assert_eq!(path, "a.b");
    assert_eq!(default, Some(Json::Str("{\"k\":1} || x".into())));
    let (bare_path, bare_default) = parse_binding_path("a.b||");
    assert_eq!(bare_path, "a.b");
    assert_eq!(bare_default, None);
    assert_eq!(extract_expression("  ${ a == b }  "), Some("a == b".to_string()));
    assert_eq!(extract_expression("${a} tail"), None);
    assert_eq!(extract_single_placeholder("@{x.y}"), Some("x.y".to_string()));
    assert_eq!(extract_single_placeholder("@{"), None);
    assert!(is_simple_expression(" a.b||\"x\" "));
    assert!(!is_simple_expression("a == b"));
    assert!(!is_simple_expression("a?b:c"));
    assert!(is_reserved_handlebars_key("node_payload"));
    assert!(!is_reserved_handlebars_key("input"));
}

#[test]
fn asset_candidates_are_ordered_and_unique() {
    let reg = vec![("card".to_string(), "mapped/card.json".to_string())];
    let env = vec![("card".to_string(), "mapped/card.json".to_string())];
    assert_eq!(
        candidate_asset_paths("card", Some(&reg), Some(&env), "assets"),
        vec!["mapped/card.json".to_string(), "assets/card".to_string(), "card".to_string()]
    );
    assert_eq!(candidate_asset_paths("dir/card.json", None, None, "assets/"), vec!["dir/card.json".to_string()]);
    assert_eq!(candidate_asset_paths("x", None, None, "base/"), vec!["base/x".to_string(), "x".to_string()]);
}

#[test]
fn search_settles_on_first_card_or_last_failure() {
    let card = |n: u64| LoadedCard {
        card: Json::Number(Number::PosInt(n)),
        resolution: AssetResolution { mode: "wasm".into(), resolved: Some(format!("p{n}")), hash: None },
    };
    let r = settle_search(
        vec![Err(ComponentError::AssetNotFound("a".into())), Ok(card(1)), Ok(card(2))],
        "key",
    );
    assert!(matches!(r, Ok(ref c) if c.card == Json::Number(Number::PosInt(1))));
    let e = settle_search(
        vec![Err(ComponentError::AssetNotFound("a".into())), Err(ComponentError::AssetParse("b".into()))],
        "key",
    );
    assert!(matches!(e, Err(ComponentError::AssetParse(ref m)) if m == "b"));
    assert!(matches!(settle_search(vec![], "key"), Err(ComponentError::InvalidInput(_))));
}

#[test]
fn catalog_candidates_follow_mapping_then_guess() {
    let file = vec![("sample".to_string(), "cards/simple.json".to_string())];
    assert_eq!(
        candidate_catalog_paths("sample", None, None, Some(&file), "assets"),
        vec!["cards/simple.json".to_string(), "assets/sample.json".to_string()]
    );
    assert_eq!(
        candidate_catalog_paths("dir/x.json", None, None, None, "b"),
        vec!["b/dir/x.json.json".to_string(), "dir/x.json".to_string()]
    );
}

#[test]
fn envelope_locations_and_modes() {
    let direct = j(r#"{"card_spec":{},"x":1}"#);
    assert_eq!(locate_invocation_candidate(&direct), Some(j(r#"{"card_spec":{},"x":1}"#)));
    let nested = j(r#"{"config":{"card":{"k":1}}}"#);
    assert_eq!(locate_invocation_candidate(&nested), Some(j(r#"{"k":1}"#)));
    let payload = j(r#"{"payload":{"a":1}}"#);
    assert_eq!(locate_invocation_candidate(&payload), Some(j(r#"{"a":1}"#)));
    assert_eq!(locate_invocation_candidate(&j("[1]")), None);
    assert_eq!(read_validation_mode(&j("{}"), &j(r#"{"validationMode":"ERROR"}"#)), ValidationMode::Error);
    assert_eq!(read_validation_mode(&j(r#"{"validation_mode":"off"}"#), &j("{}")), ValidationMode::Off);
    assert_eq!(read_validation_mode(&j(r#"{"validation_mode":"off"}"#), &j(r#"{"validation_mode":"loud"}"#)), ValidationMode::Warn);
}

#[test]
fn trace_event_reports_sources_and_state() {
    let inv = inline(j("{}"));
    let res = AssetResolution { mode: "inline".into(), resolved: None, hash: Some("blake3:00".into()) };
    let mut counts = BindingSummary::new();
    counts.placeholder_replacements = 3;
    let ev = build_trace_event(&inv, &res, &counts, None, Some("k".into()), None, Some("h".into()), false);
    assert_eq!(ev.name, "adaptive_card.trace");
    assert_eq!(
        ev.properties,
        j(r#"{"card_source":"inline",
              "asset_resolution":{"mode":"inline","resolved":null,"asset_hash":"blake3:00"},
              "bindings_summary":{"handlebars_expansions":0,"placeholder_replacements":3,"expression_evaluations":0,"missing_paths":0},
              "state_summary":{"state_key":"k","state_read_hash":null,"state_write_hash":"h"}}"#)
    );
}

#[test]
fn unicode_escapes_decode_to_characters() {
    assert_eq!(parse_json(r#""\u00e9\ud83d\ude00\t""#), Some(Json::Str("é😀\t".into())));
    assert_eq!(to_json_string(&Json::Str("é😀\t\u{1f}".into())), "\"é😀\\t\\u001f\"");
}

#[test]
fn string_inputs_that_are_not_objects_are_wrapped() {
    assert_eq!(normalize_inputs(&Json::Str("5".into())), j(r#"{"value":"5"}"#));
    assert_eq!(normalize_inputs(&Json::Str("[1]".into())), j(r#"{"value":"[1]"}"#));
}

#[test]
fn rooted_paths_read_bracket_indices() {
    let c = ctx(r#"{"items":[5,{"k":"v"}]}"#, "{}", "{}");
    assert_eq!(c.lookup("payload.items[0]"), Some(Json::Number(Number::PosInt(5))));
    assert_eq!(c.lookup("payload.items[1].k"), Some(Json::Str("v".into())));
}

#[test]
fn root_node_issues_point_at_root() {
    let issues = validate_card(&j(r#"{"type":"Input.Text","version":"1"}"#));
    assert!(issues.iter().any(|i| i.code == "missing-id" && i.path == "/"));
}

#[test]
fn non_array_target_elements_is_an_issue() {
    let card = j(r#"{"type":"AdaptiveCard","version":"1","actions":[{"type":"Action.ToggleVisibility","targetElements":"x"}]}"#);
    let codes: Vec<String> = validate_card(&card).iter().map(|i| i.code.clone()).collect();
    assert_eq!(codes, vec!["invalid-target-elements".to_string()]);
}

#[test]
fn repeated_keys_keep_the_last_value() {
    assert_eq!(parse_json(r#"{"a":1,"b":2,"a":3}"#), Some(j(r#"{"a":3,"b":2}"#)));
}

#[test]
fn number_bounds_compare_as_decimals() {
    let range = |min: &str, max: &str| {
        let card = j(&format!(r#"{{"type":"AdaptiveCard","version":"1","body":[{{"type":"Input.Number","id":"n","min":{min},"max":{max}}}]}}"#));
        validate_card(&card).iter().any(|i| i.code == "invalid-range")
    };
    assert!(range("2.5", "1.5"));
    assert!(!range("1.5", "2.5"));
    assert!(range("3", "2.99"));
    assert!(!range("1e2", "100"));
    assert!(range("1e2", "99.5"));
    assert!(range("-0.5", "-1"));
    assert!(!range("-2", "-1.5e0"));
    assert!(range("1E-3", "0"));
}

#[test]
fn error_mode_fails_interactions_with_issues_before_writing() {
    let mut inv = inline(j(r#"{"type":"Other"}"#));
    inv.validation_mode = ValidationMode::Error;
    inv.interaction = Some(interaction(CardInteractionType::Submit, "go", r#"{"a":1}"#, "{}"));
    let mut store = StateStore::new();
    let r = handle_invocation(inv, &mut store, None, no_trace());
    assert!(matches!(r, Err(ComponentError::CardValidation(ref issues)) if issues.len() == 2));
    assert_eq!(store.len(), 0);
}

#[test]
fn partial_syntax_is_refused() {
    let inv = inline(j(r#"{"t":"{{#*inline \"p\"}}{{> p}}{{/inline}}{{> p}}"}"#));
    assert!(matches!(render_card(&inv, None), Err(ComponentError::Binding(_))));
    let spaced = inline(j(r#"{"t":"{{ ~ > p}}"}"#));
    assert!(matches!(render_card(&spaced, None), Err(ComponentError::Binding(_))));
    let mut fine = inline(j(r#"{"t":"{{payload.a}} > {{payload.b}}"}"#));
    fine.payload = j(r#"{"a":"x","b":"y"}"#);
    let out = render_card(&fine, None).expect("render");
    assert_eq!(out.card.get("t"), Some(&Json::Str("x > y".into())));
}
