use adaptive_card::json::Json;
use adaptive_card::json_read::parse_json;
use adaptive_card::model::{
    AdaptiveCardInvocation, CardSource, CardSpec, InvocationMode, StateUpdateOp, ValidationMode,
};
use adaptive_card::state_store::{
    apply_updates, delete_path, is_not_found, load_state_if_missing, merge_path, persist_state,
    set_path, state_key_for, StateStore,
};

fn j(text: &str) -> Json {
    parse_json(text).expect("test JSON must parse")
}

fn base_invocation() -> AdaptiveCardInvocation {
    AdaptiveCardInvocation {
        card_source: CardSource::Inline,
        card_spec: CardSpec {
            inline_json: Some(j("{}")),
            asset_path: None,
            catalog_name: None,
            template_params: None,
            asset_registry: None,
        },
        node_id: Some("node-1".to_string()),
        payload: Json::Null,
        session: Json::Null,
        state: Json::Null,
        interaction: None,
        mode: InvocationMode::RenderAndValidate,
        validation_mode: ValidationMode::Warn,
        envelope: None,
    }
}

#[test]
fn apply_updates_sets_merges_and_deletes() {
    let mut state = j("{}");
    let updates = vec![
        StateUpdateOp::Assign { path: "form_data.name".into(), value: Json::Str("Ada".into()) },
        StateUpdateOp::Merge { path: "form_data".into(), value: j(r#"{"tier":"pro"}"#) },
        StateUpdateOp::Delete { path: "form_data.name".into() },
    ];
    apply_updates(&mut state, &updates);
    let form = state.get("form_data").expect("form_data");
    assert_eq!(form.get("tier"), Some(&Json::Str("pro".into())));
    assert!(form.get("name").is_none());
}

#[test]
fn persists_and_loads_state_when_missing() {
    let mut store = StateStore::new();
    let mut invocation = base_invocation();
    let state = j(r#"{"ui":{"visibility":{"card":true}}}"#);
    persist_state(&invocation, None, &state, &mut store).expect("persist should succeed");
    let loaded = load_state_if_missing(&mut invocation, None, &store).expect("load should succeed");
    assert_eq!(loaded, Some(j(r#"{"ui":{"visibility":{"card":true}}}"#)));
    let card = invocation.state.get("ui").and_then(|u| u.get("visibility")).and_then(|v| v.get("card"));
    assert_eq!(card, Some(&Json::Bool(true)));
}

#[test]
fn set_then_lookup_returns_value_even_through_non_objects() {
    let state = set_path(j(r#"{"a":5}"#), "a.b.c", j("[1,2]"));
    assert_eq!(state, j(r#"{"a":{"b":{"c":[1,2]}}}"#));
    let again = set_path(j(r#"{"x":{"y":1}}"#), "x.z", Json::Str("v".into()));
    assert_eq!(again, j(r#"{"x":{"y":1,"z":"v"}}"#));
}

#[test]
fn merge_twice_unions_keys() {
    let s1 = merge_path(j("{}"), "p.q", j(r#"{"a":1}"#));
    let s2 = merge_path(s1, "p.q", j(r#"{"b":2}"#));
    assert_eq!(s2, j(r#"{"p":{"q":{"a":1,"b":2}}}"#));
    let replaced = merge_path(j(r#"{"p":[1]}"#), "p", j(r#"{"a":1}"#));
    assert_eq!(replaced, j(r#"{"p":{"a":1}}"#));
    let scalar = merge_path(j(r#"{"p":{"a":1}}"#), "p", j("7"));
    assert_eq!(scalar, j(r#"{"p":7}"#));
}

#[test]
fn delete_of_absent_path_is_a_no_op() {
    let doc = j(r#"{"a":{"b":1},"c":2}"#);
    let once = delete_path(j(r#"{"a":{"b":1},"c":2}"#), "a.x.y");
    assert_eq!(once, doc);
    let twice = delete_path(once, "a.x.y");
    assert_eq!(twice, doc);
    let through_scalar = delete_path(j(r#"{"c":2}"#), "c.d");
    assert_eq!(through_scalar, j(r#"{"c":2}"#));
    let removed = delete_path(j(r#"{"a":{"b":1,"k":0}}"#), "a.b");
    assert_eq!(removed, j(r#"{"a":{"k":0}}"#));
}

#[test]
fn state_of_distinct_keys_does_not_leak() {
    let mut store = StateStore::new();
    let mut first = base_invocation();
    first.node_id = Some("n1".into());
    let mut second = base_invocation();
    second.node_id = Some("n2".into());
    persist_state(&first, None, &j(r#"{"v":1}"#), &mut store).unwrap();
    persist_state(&second, None, &j(r#"{"v":2}"#), &mut store).unwrap();
    let loaded_first = load_state_if_missing(&mut first, None, &store).unwrap();
    let loaded_second = load_state_if_missing(&mut second, None, &store).unwrap();
    assert_eq!(loaded_first, Some(j(r#"{"v":1}"#)));
    assert_eq!(loaded_second, Some(j(r#"{"v":2}"#)));
    persist_state(&first, None, &Json::Null, &mut store).unwrap();
    let mut again = base_invocation();
    again.node_id = Some("n2".into());
    assert_eq!(load_state_if_missing(&mut again, None, &store).unwrap(), Some(j(r#"{"v":2}"#)));
    let mut gone = base_invocation();
    gone.node_id = Some("n1".into());
    assert_eq!(load_state_if_missing(&mut gone, None, &store).unwrap(), None);
}

#[test]
fn state_keys_follow_node_then_card_then_default() {
    let mut inv = base_invocation();
    assert_eq!(state_key_for(&inv, None), "adaptive-card:node:node-1");
    inv.node_id = None;
    assert_eq!(state_key_for(&inv, None), "adaptive-card:default");
}

#[test]
fn supplied_state_is_never_replaced() {
    let mut store = StateStore::new();
    let mut inv = base_invocation();
    persist_state(&inv, None, &j(r#"{"stored":true}"#), &mut store).unwrap();
    inv.state = j(r#"{"given":true}"#);
    assert_eq!(load_state_if_missing(&mut inv, None, &store).unwrap(), None);
    assert_eq!(inv.state, j(r#"{"given":true}"#));
}

#[test]
fn not_found_codes_are_recognized() {
    assert!(is_not_found("NOT-FOUND"));
    assert!(is_not_found("not_found"));
    assert!(is_not_found("NotFound"));
    assert!(is_not_found("state.read.miss"));
    assert!(is_not_found("kv.READ.MISS.later"));
    assert!(!is_not_found("denied"));
}

#[test]
fn deleting_twice_is_deleting_once() {
    let once = delete_path(j(r#"{"a":{"b":1,"c":2}}"#), "a.b");
    let twice = delete_path(delete_path(j(r#"{"a":{"b":1,"c":2}}"#), "a.b"), "a.b");
    assert_eq!(once, twice);
    assert_eq!(twice, j(r#"{"a":{"c":2}}"#));
}

#[test]
fn persisting_null_leaves_no_document() {
    let mut store = StateStore::new();
    let inv = base_invocation();
    persist_state(&inv, None, &j(r#"{"x":1}"#), &mut store).unwrap();
    persist_state(&inv, None, &j(r#"{"x":2}"#), &mut store).unwrap();
    assert_eq!(store.len(), 1);
    persist_state(&inv, None, &Json::Null, &mut store).unwrap();
    assert_eq!(store.len(), 0);
    assert_eq!(store.read("adaptive-card:node:node-1"), None);
}
