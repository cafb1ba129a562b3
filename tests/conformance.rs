use adaptive_card::handle_invocation;
use adaptive_card::json::Json;
use adaptive_card::json_read::parse_json;
use adaptive_card::model::{
    AdaptiveCardInvocation, CardInteraction, CardInteractionType, CardSource, CardSpec,
    InvocationMode, SessionUpdateOp, StateUpdateOp, ValidationMode,
};
use adaptive_card::state_store::StateStore;
use adaptive_card::trace::TraceOptions;

fn j(text: &str) -> Json {
    parse_json(text).expect("test JSON must parse")
}

fn at<'a>(v: &'a Json, path: &[&str]) -> &'a Json {
    let mut cur = v;
    for key in path {
        cur = match cur {
            Json::Array(items) => &items[key.parse::<usize>().expect("index")],
            _ => cur.get(key).expect("member present"),
        };
    }
    cur
}

fn text(v: &Json) -> &str {
    match v {
        Json::Str(s) => s.as_str(),
        _ => panic!("text should be string"),
    }
}

fn no_trace() -> TraceOptions {
    TraceOptions { enabled: false, capture_inputs: false }
}

fn base_invocation(card: Json) -> AdaptiveCardInvocation {
    AdaptiveCardInvocation {
        card_source: CardSource::Inline,
        card_spec: CardSpec {
            inline_json: Some(card),
            asset_path: None,
            catalog_name: None,
            template_params: None,
            asset_registry: None,
        },
        node_id: None,
        payload: j("{}"),
        session: j("{}"),
        state: j("{}"),
        interaction: None,
        mode: InvocationMode::RenderAndValidate,
        validation_mode: ValidationMode::Warn,
        envelope: None,
    }
}

fn run(inv: AdaptiveCardInvocation) -> adaptive_card::model::AdaptiveCardResult {
    let mut store = StateStore::new();
    handle_invocation(inv, &mut store, None, no_trace()).expect("invocation should succeed")
}

#[test]
fn inline_render_returns_card_and_features() {
    let card_text = r#"{"type":"AdaptiveCard","version":"1.6","body":[{"type":"TextBlock","text":"Hello"}]}"#;
    let invocation = base_invocation(j(card_text));
    let result = run(invocation);
    assert_eq!(result.rendered_card, Some(j(card_text)));
    assert!(result.card_features.used_elements.contains(&"TextBlock".to_string()));
}

#[test]
fn bindings_apply_session_and_state() {
    let card = j(r#"{"type":"AdaptiveCard","version":"1.6","body":[{"type":"TextBlock","text":"Hello @{session.user.name}, step ${state.step}"}]}"#);
    let mut invocation = base_invocation(card);
    invocation.session = j(r#"{"user":{"name":"Ada"}}"#);
    invocation.state = j(r#"{"step":2}"#);
    let result = run(invocation);
    let rendered = result.rendered_card.expect("card should render");
    assert_eq!(text(at(&rendered, &["body", "0", "text"])), "Hello Ada, step 2");
}

#[test]
fn bindings_apply_default_with_coalesce() {
    let card = j(r#"{"type":"AdaptiveCard","version":"1.6","body":[{"type":"TextBlock","text":"Hello @{session.user.name||\"Guest\"}"}]}"#);
    let invocation = base_invocation(card);
    let result = run(invocation);
    let rendered = result.rendered_card.expect("card should render");
    assert_eq!(text(at(&rendered, &["body", "0", "text"])), "Hello Guest");
}

#[test]
fn expression_placeholders_support_equality_and_ternary() {
    let card = j(r#"{"type":"AdaptiveCard","version":"1.6","body":[{"type":"TextBlock","text":"${payload.status == \"ok\" ? \"green\" : \"red\"}"}]}"#);
    let mut invocation = base_invocation(card);
    invocation.payload = j(r#"{"status":"ok"}"#);
    let result = run(invocation);
    let rendered = result.rendered_card.expect("card should render");
    assert_eq!(text(at(&rendered, &["body", "0", "text"])), "green");
}

#[test]
fn submit_interaction_emits_event_and_updates_state() {
    let card = j(r#"{"type":"AdaptiveCard","version":"1.6","body":[{"type":"Input.Text","id":"comment"}]}"#);
    let mut invocation = base_invocation(card);
    invocation.interaction = Some(CardInteraction {
        enabled: None,
        interaction_type: CardInteractionType::Submit,
        action_id: "submit-1".to_string(),
        verb: None,
        raw_inputs: j(r#"{"comment":"Looks good"}"#),
        card_instance_id: "card-1".to_string(),
        metadata: j(r#"{"route":"next"}"#),
    });
    let result = run(invocation);
    let event = result.event.expect("event should exist");
    assert_eq!(event.action_id, "submit-1");
    assert_eq!(text(at(&event.inputs, &["comment"])), "Looks good");
    assert!(result
        .state_updates
        .iter()
        .any(|op| matches!(op, StateUpdateOp::Merge { path, .. } if path == "form_data")));
    assert!(result
        .session_updates
        .iter()
        .any(|op| matches!(op, SessionUpdateOp::SetRoute { route } if route == "next")));
}

#[test]
fn toggle_visibility_sets_state_flag() {
    let card = j(r#"{"type":"AdaptiveCard","version":"1.6","actions":[{"type":"Action.ToggleVisibility","targetElements":["section-1"]}]}"#);
    let mut invocation = base_invocation(card);
    invocation.interaction = Some(CardInteraction {
        enabled: None,
        interaction_type: CardInteractionType::ToggleVisibility,
        action_id: "section-1".to_string(),
        verb: None,
        raw_inputs: j("{}"),
        card_instance_id: "card-2".to_string(),
        metadata: j(r#"{"visible":false}"#),
    });
    let result = run(invocation);
    assert!(result.state_updates.iter().any(|op| matches!(op,
        StateUpdateOp::Assign { path, value } if path == "ui.visibility.section-1" && *value == Json::Bool(false))));
}

#[test]
fn feature_summary_detects_actions_and_media() {
    let card = j(r#"{"type":"AdaptiveCard","version":"1.6",
        "body":[{"type":"Media","sources":[{"mimeType":"video/mp4","url":"https://example.com"}]}],
        "actions":[{"type":"Action.ShowCard","card":{"type":"AdaptiveCard","version":"1.6","body":[]}},
                   {"type":"Action.ToggleVisibility","targetElements":["x"]}]}"#);
    let invocation = base_invocation(card);
    let result = run(invocation);
    assert!(result.card_features.uses_media);
    assert!(result.card_features.uses_show_card);
    assert!(result.card_features.uses_toggle_visibility);
    assert!(result.card_features.used_actions.iter().any(|a| a == "Action.ShowCard"));
}

#[test]
fn validation_reports_choice_set_and_toggle_rules() {
    let card = j(r#"{"type":"AdaptiveCard","version":"1.6",
        "body":[{"type":"Input.ChoiceSet","id":"choices"},{"type":"Input.Toggle","id":"toggle","title":""}],
        "actions":[{"type":"Action.ToggleVisibility","targetElements":[]},{"type":"Action.ShowCard","card":"invalid"}]}"#);
    let invocation = base_invocation(card);
    let result = run(invocation);
    let issues: Vec<String> = result.validation_issues.iter().map(|v| v.code.clone()).collect();
    assert!(issues.iter().any(|c| c == "missing-choices"));
    assert!(issues.iter().any(|c| c == "missing-title"));
    assert!(issues.iter().any(|c| c == "empty-target-elements"));
    assert!(issues.iter().any(|c| c == "invalid-card"));
}

#[test]
fn validation_catches_media_sources() {
    let card = j(r#"{"type":"AdaptiveCard","version":"1.6","body":[{"type":"Media","sources":[]}]}"#);
    let invocation = base_invocation(card);
    let result = run(invocation);
    let codes: Vec<String> = result.validation_issues.iter().map(|i| i.code.clone()).collect();
    assert!(codes.iter().any(|c| c == "missing-sources"));
}
