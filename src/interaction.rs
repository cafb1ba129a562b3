//! The interaction handler: one interaction becomes state and session update intents and a
//! normalized action event.
use vstd::prelude::*;

use crate::error::ComponentError;
use crate::json::{get_spec, member, put, Json, JsonV};
use crate::model::{AdaptiveCardInvocation, AdaptiveCardResult, ValidationMode};
use crate::features::features_of;
use crate::render::{render_card, rendered_with, source_card, spec_field_missing, LoadedCard};
use crate::validation::{card_issues, issues_view};
use crate::state_store::{
    apply_updates, load_state_if_missing, opt_text, persist_state,
    state_key_for, state_key_spec, updates_spec, StateStore,
};
use crate::text::{chars_of, trim, trim_bounds};
use crate::trace::{build_trace_event, telemetry_ok, TraceOptions};
use crate::json_read::{parse_json, parse_json_spec};
use crate::model::{
    AdaptiveActionEvent, AdaptiveActionType, CardInteraction, CardInteractionType,
    SessionUpdateOp, StateUpdateOp,
};

verus! {

/// `{"value": v}`.
pub open spec fn wrap_value(v: JsonV) -> JsonV {
    JsonV::Object(seq![("value"@, v)])
}

/// Raw inputs as the handler passes them on, always an object: an object as it is, null as
/// `{}`, a string that is the JSON text of an object as that object, and any other value
/// (another string included) wrapped as `{"value": raw}`.
pub open spec fn normalize_spec(raw: JsonV) -> JsonV {
    match raw {
        JsonV::Object(_) => raw,
        JsonV::Null => JsonV::Object(Seq::empty()),
        JsonV::Str(s) => match parse_json_spec(s) {
            Some(v) => if v is Object {
                v
            } else {
                wrap_value(raw)
            },
            None => wrap_value(raw),
        },
        _ => wrap_value(raw),
    }
}

fn wrap(v: Json) -> (r: Json)
    ensures
        r@ == wrap_value(v@),
{
    let ghost vv = v@;
    let mut m: Vec<(String, Json)> = Vec::new();
    m.push(("value".to_string(), v));
    proof {
        reveal_strlit("value");
        crate::json::lemma_member_views_eq(m@, seq![("value"@, vv)]);
    }
    Json::Object(m)
}

/// Normalizes raw interaction inputs.
pub fn normalize_inputs(raw: &Json) -> (r: Json)
    ensures
        r@ == normalize_spec(raw@),
        r@ is Object,
{
    match raw {
        Json::Object(_) => raw.copy(),
        Json::Null => {
            let m: Vec<(String, Json)> = Vec::new();
            proof {
                crate::json::lemma_member_views_eq(m@, Seq::empty());
            }
            Json::Object(m)
        },
        Json::Str(s) => match parse_json(s.as_str()) {
            Some(v) => if v.is_object() {
                v
            } else {
                wrap(raw.copy())
            },
            None => wrap(raw.copy()),
        },
        _ => wrap(raw.copy()),
    }
}

/// A state update as `(kind, path, value)`: kind 0 assigns, 1 merges, 2 deletes.
pub open spec fn update_view(op: StateUpdateOp) -> (int, Seq<char>, JsonV) {
    match op {
        StateUpdateOp::Assign { path, value } => (0, path@, value@),
        StateUpdateOp::Merge { path, value } => (1, path@, value@),
        StateUpdateOp::Delete { path } => (2, path@, JsonV::Null),
    }
}

pub open spec fn updates_view(ops: Seq<StateUpdateOp>) -> Seq<(int, Seq<char>, JsonV)> {
    ops.map_values(|op: StateUpdateOp| update_view(op))
}

/// The text of `metadata.<key>`, when it is a string.
pub open spec fn meta_str(metadata: JsonV, key: Seq<char>) -> Option<Seq<char>> {
    match get_spec(metadata, key) {
        Some(JsonV::Str(s)) => Some(s),
        _ => None,
    }
}

/// The state updates of an interaction.
pub open spec fn planned_updates(i: &CardInteraction) -> Seq<(int, Seq<char>, JsonV)> {
    match i.interaction_type {
        CardInteractionType::Submit | CardInteractionType::Execute => seq![
            (1, "form_data"@, normalize_spec(i.raw_inputs@)),
        ],
        CardInteractionType::OpenUrl => Seq::empty(),
        CardInteractionType::ShowCard => seq![
            (
                0,
                "ui.active_show_card."@ + i.card_instance_id@,
                JsonV::Str(
                    match meta_str(i.metadata@, "subcardId"@) {
                        Some(s) => s,
                        None => i.action_id@,
                    },
                ),
            ),
        ],
        CardInteractionType::ToggleVisibility => seq![
            (
                0,
                "ui.visibility."@ + i.action_id@,
                JsonV::Bool(
                    match get_spec(i.metadata@, "visible"@) {
                        Some(JsonV::Bool(b)) => b,
                        _ => true,
                    },
                ),
            ),
        ],
    }
}

pub open spec fn action_type_of(t: CardInteractionType) -> AdaptiveActionType {
    match t {
        CardInteractionType::Submit => AdaptiveActionType::Submit,
        CardInteractionType::Execute => AdaptiveActionType::Execute,
        CardInteractionType::OpenUrl => AdaptiveActionType::OpenUrl,
        CardInteractionType::ShowCard => AdaptiveActionType::ShowCard,
        CardInteractionType::ToggleVisibility => AdaptiveActionType::ToggleVisibility,
    }
}

pub open spec fn opt_view(s: Option<String>) -> Option<Seq<char>> {
    match s {
        Some(t) => Some(t@),
        None => None,
    }
}

/// What one interaction asks for.
#[derive(Debug)]
pub struct InteractionPlan {
    pub state_updates: Vec<StateUpdateOp>,
    pub session_updates: Vec<SessionUpdateOp>,
    pub event: AdaptiveActionEvent,
}

/// The route of a session update, or none for another kind.
pub open spec fn route_of(op: SessionUpdateOp) -> Option<Seq<char>> {
    match op {
        SessionUpdateOp::SetRoute { route } => Some(route@),
        _ => None,
    }
}

fn meta_text(metadata: &Json, key: &str) -> (r: Option<String>)
    ensures
        opt_view(r) == meta_str(metadata@, key@),
{
    match metadata.get(key) {
        Some(Json::Str(s)) => Some(s.clone()),
        _ => None,
    }
}

fn concat(a: &str, b: &str) -> (r: String)
    ensures
        r@ == a@ + b@,
{
    let mut s = a.to_string();
    s.append(b);
    s
}

/// Whether the updates and the event are those of interaction `i`: its planned state updates,
/// a route update exactly when its metadata names a route, and an event that carries its
/// identity, normalized inputs and metadata-resolved ids.
pub open spec fn is_plan_of(
    i: &CardInteraction,
    state_updates: Seq<StateUpdateOp>,
    session_updates: Seq<SessionUpdateOp>,
    event: AdaptiveActionEvent,
) -> bool {
    &&& updates_view(state_updates) == planned_updates(i)
    &&& session_updates.len() == (if meta_str(i.metadata@, "route"@) is Some {
        1int
    } else {
        0
    })
    &&& (meta_str(i.metadata@, "route"@) matches Some(route) ==> route_of(session_updates[0])
        == Some(route))
    &&& event.action_type == action_type_of(i.interaction_type)
    &&& event.action_id@ == i.action_id@
    &&& opt_view(event.verb) == opt_view(i.verb)
    &&& opt_view(event.route) == meta_str(i.metadata@, "route"@)
    &&& event.inputs@ == normalize_spec(i.raw_inputs@)
    &&& event.card_id@ == match meta_str(i.metadata@, "cardId"@) {
        Some(c) => c,
        None => i.card_instance_id@,
    }
    &&& event.card_instance_id@ == i.card_instance_id@
    &&& opt_view(event.subcard_id) == meta_str(i.metadata@, "subcardId"@)
    &&& event.metadata@ == i.metadata@
}

/// The update intents and the action event of an interaction.
pub fn plan_interaction(i: &CardInteraction) -> (r: InteractionPlan)
    ensures
        is_plan_of(i, r.state_updates@, r.session_updates@, r.event),
{
    proof {
        reveal_strlit("route");
        reveal_strlit("form_data");
        reveal_strlit("subcardId");
        reveal_strlit("visible");
        reveal_strlit("cardId");
        reveal_strlit("ui.active_show_card.");
        reveal_strlit("ui.visibility.");
    }
    let inputs = normalize_inputs(&i.raw_inputs);
    let mut state_updates: Vec<StateUpdateOp> = Vec::new();
    let mut session_updates: Vec<SessionUpdateOp> = Vec::new();
    let route = meta_text(&i.metadata, "route");
    match &route {
        Some(r) => session_updates.push(SessionUpdateOp::SetRoute { route: r.clone() }),
        None => {},
    }
    let subcard = meta_text(&i.metadata, "subcardId");
    let action_type = match i.interaction_type {
        CardInteractionType::Submit => {
            state_updates.push(StateUpdateOp::Merge { path: "form_data".to_string(), value: inputs.copy() });
            AdaptiveActionType::Submit
        },
        CardInteractionType::Execute => {
            state_updates.push(StateUpdateOp::Merge { path: "form_data".to_string(), value: inputs.copy() });
            AdaptiveActionType::Execute
        },
        CardInteractionType::OpenUrl => AdaptiveActionType::OpenUrl,
        CardInteractionType::ShowCard => {
            let id = match &subcard {
                Some(s) => s.clone(),
                None => i.action_id.clone(),
            };
            state_updates.push(
                StateUpdateOp::Assign {
                    path: concat("ui.active_show_card.", i.card_instance_id.as_str()),
                    value: Json::Str(id),
                },
            );
            AdaptiveActionType::ShowCard
        },
        CardInteractionType::ToggleVisibility => {
            let visible = match i.metadata.get("visible") {
                Some(Json::Bool(b)) => *b,
                _ => true,
            };
            state_updates.push(
                StateUpdateOp::Assign {
                    path: concat("ui.visibility.", i.action_id.as_str()),
                    value: Json::Bool(visible),
                },
            );
            AdaptiveActionType::ToggleVisibility
        },
    };
    assert(updates_view(state_updates@) =~= planned_updates(i));
    let card_id = match meta_text(&i.metadata, "cardId") {
        Some(c) => c,
        None => i.card_instance_id.clone(),
    };
    let verb = match &i.verb {
        Some(v) => Some(v.clone()),
        None => None,
    };
    let event = AdaptiveActionEvent {
        action_type,
        action_id: i.action_id.clone(),
        verb,
        route,
        inputs,
        card_id,
        card_instance_id: i.card_instance_id.clone(),
        subcard_id: subcard,
        metadata: i.metadata.copy(),
    };
    InteractionPlan { state_updates, session_updates, event }
}

/// A Submit interaction asks for exactly one update, a `Merge` of its normalized inputs at
/// `form_data`; object inputs pass through unchanged.
pub proof fn lemma_submit_merges_inputs(i: &CardInteraction)
    requires
        i.interaction_type == CardInteractionType::Submit,
    ensures
        planned_updates(i) == seq![(1int, "form_data"@, normalize_spec(i.raw_inputs@))],
        i.raw_inputs@ is Object ==> normalize_spec(i.raw_inputs@) == i.raw_inputs@,
{
}

/// A handled Submit interaction with object inputs yields a Submit event that carries its
/// action id, card instance id, verb and inputs unchanged, and exactly one `Merge` of those
/// inputs at `form_data`.
pub proof fn lemma_submit_event(
    inv: &AdaptiveCardInvocation,
    state: JsonV,
    loaded: Option<LoadedCard>,
    before: Seq<(Seq<char>, JsonV)>,
    after: Seq<(Seq<char>, JsonV)>,
    trace: TraceOptions,
    res: AdaptiveCardResult,
)
    requires
        interaction_outcome(inv, state, loaded, before, after, trace, Ok(res)),
        inv.interaction matches Some(i) && i.interaction_type == CardInteractionType::Submit
            && i.raw_inputs@ is Object,
    ensures
        inv.interaction matches Some(i) && res.event matches Some(e) && e.action_type
            == AdaptiveActionType::Submit && e.action_id@ == i.action_id@ && e.inputs@
            == i.raw_inputs@ && e.card_instance_id@ == i.card_instance_id@ && opt_view(e.verb)
            == opt_view(i.verb) && updates_view(res.state_updates@) == seq![
            (1int, "form_data"@, i.raw_inputs@),
        ],
{
}

/// A ToggleVisibility interaction with `metadata.visible` false asks for exactly one update,
/// setting `ui.visibility.<action_id>` to false.
pub proof fn lemma_toggle_sets_visibility(i: &CardInteraction)
    requires
        i.interaction_type == CardInteractionType::ToggleVisibility,
        get_spec(i.metadata@, "visible"@) == Some(JsonV::Bool(false)),
    ensures
        planned_updates(i) == seq![(0int, "ui.visibility."@ + i.action_id@, JsonV::Bool(false))],
{
}

/// Whether `s` is empty once trimmed.
pub fn is_blank(s: &str) -> (r: bool)
    ensures
        r == (trim(s@).len() == 0),
{
    let cs = chars_of(s);
    assert(cs@.subrange(0, cs@.len() as int) =~= cs@);
    let (a, b) = trim_bounds(cs.as_slice(), 0, cs.len());
    a == b
}

/// The state document an invocation starts from: the supplied one, else the stored one.
pub open spec fn starting_state(inv: &AdaptiveCardInvocation, stored: Seq<(Seq<char>, JsonV)>, key: Seq<char>) -> JsonV {
    start_of(inv.state@, stored, key)
}

/// `state` when supplied (not null), else what is stored under `key`.
pub open spec fn start_of(state: JsonV, stored: Seq<(Seq<char>, JsonV)>, key: Seq<char>) -> JsonV {
    if state is Null {
        match member(stored, key) {
            Some(v) => v,
            None => JsonV::Null,
        }
    } else {
        state
    }
}

/// What handling an interaction gives, for an invocation whose state document is `state`, with
/// the store holding `before` and then `after`: invalid input without an interaction,
/// invalid-interaction for a blank action or card instance id, the render failure when
/// rendering fails (the store untouched in every failure), and otherwise the planned updates
/// and event, the rendered card with its features and issues, and the updated state document
/// written under the interaction's key; in `Error` validation mode a card with issues fails
/// with exactly those issues before anything is written.
pub open spec fn interaction_outcome(
    inv: &AdaptiveCardInvocation,
    state: JsonV,
    loaded: Option<LoadedCard>,
    before: Seq<(Seq<char>, JsonV)>,
    after: Seq<(Seq<char>, JsonV)>,
    trace: TraceOptions,
    r: Result<AdaptiveCardResult, ComponentError>,
) -> bool {
    match inv.interaction {
        None => r matches Err(e) && e is InvalidInput && after == before,
        Some(i) => if trim(i.action_id@).len() == 0 || trim(i.card_instance_id@).len() == 0 {
            r matches Err(e) && e is InteractionInvalid && after == before
        } else {
            let key = state_key_spec(opt_text(inv.node_id), Some(i.card_instance_id@));
            let start = start_of(state, before, key);
            match source_card(inv, loaded) {
                None => after == before && if spec_field_missing(inv) {
                    r matches Err(e) && e is InvalidInput
                } else {
                    r matches Err(e) && e is AssetNotFound
                },
                Some(c) => match rendered_with(inv, start, c) {
                    None => r matches Err(e) && e is Binding && after == before,
                    Some(card) => if inv.validation_mode == ValidationMode::Error && card_issues(
                        card,
                    ).len() > 0 {
                        r matches Err(ComponentError::CardValidation(v)) && issues_view(v@)
                            == card_issues(card) && after == before
                    } else {
                        r matches Ok(res) && (res.event matches Some(e) && is_plan_of(
                        &i,
                        res.state_updates@,
                        res.session_updates@,
                        e,
                    )) && (res.rendered_card matches Some(rc) && rc@ == card) && issues_view(
                        res.validation_issues@,
                    ) == card_issues(card) && features_of(res.card_features, card) && after
                        == put(before, key, updates_spec(update_base(start), res.state_updates@))
                        && telemetry_ok(res.telemetry_events@, trace)
                    },
                },
            }
        },
    }
}

/// The document the updates apply to: the starting state, or `{}` for none.
pub open spec fn update_base(s: JsonV) -> JsonV {
    if s is Null {
        JsonV::Object(Seq::empty())
    } else {
        s
    }
}

/// Handles an invocation that carries an interaction: checks its identity, loads the state when
/// none was supplied, renders, plans the updates, applies them as one batch to the state
/// document and persists that document under the interaction's key.
pub fn handle_interaction(
    inv: AdaptiveCardInvocation,
    store: &mut StateStore,
    loaded: Option<LoadedCard>,
    trace: TraceOptions,
) -> (r: Result<AdaptiveCardResult, ComponentError>)
    ensures
        interaction_outcome(
            &inv,
            inv.state@,
            loaded,
            old(store).contents(),
            final(store).contents(),
            trace,
            r,
        ),
{
    let mut inv = inv;
    let interaction = match inv.interaction.take() {
        Some(i) => i,
        None => {
            return Err(ComponentError::InvalidInput("interaction is required".to_string()));
        },
    };
    if is_blank(interaction.action_id.as_str()) {
        return Err(ComponentError::InteractionInvalid("interaction.action_id is required".to_string()));
    }
    if is_blank(interaction.card_instance_id.as_str()) {
        return Err(
            ComponentError::InteractionInvalid("interaction.card_instance_id is required".to_string()),
        );
    }
    let ghost key = state_key_spec(opt_text(inv.node_id), Some(interaction.card_instance_id@));
    let ghost start = starting_state(&inv, store.contents(), key);
    let state_loaded = load_state_if_missing(&mut inv, Some(&interaction), store)?;
    assert(inv.state@ == start);
    let state_read_hash = match &state_loaded {
        Some(s) => Some(crate::render::hash_json(s)),
        None => None,
    };
    let resolved = render_card(&inv, loaded)?;
    if inv.validation_mode == ValidationMode::Error && resolved.validation_issues.len() > 0 {
        return Err(ComponentError::CardValidation(resolved.validation_issues));
    }
    let plan = plan_interaction(&interaction);
    let mut persisted = if inv.state.is_null() {
        let m: Vec<(String, Json)> = Vec::new();
        proof {
            crate::json::lemma_member_views_eq(m@, Seq::empty());
        }
        Json::Object(m)
    } else {
        inv.state.copy()
    };
    let ghost base = persisted@;
    apply_updates(&mut persisted, plan.state_updates.as_slice());
    proof {
        crate::state_store::lemma_updates_never_null(base, plan.state_updates@);
    }
    let state_write_hash = crate::render::hash_json(&persisted);
    persist_state(&inv, Some(&interaction), &persisted, store)?;
    let mut telemetry_events = Vec::new();
    if trace.enabled {
        let state_key = state_key_for(&inv, Some(&interaction));
        telemetry_events.push(
            build_trace_event(
                &inv,
                &resolved.asset_resolution,
                &resolved.binding_summary,
                Some(&interaction),
                Some(state_key),
                state_read_hash,
                Some(state_write_hash),
                trace.capture_inputs,
            ),
        );
    }
    inv.interaction = Some(interaction);
    Ok(
        AdaptiveCardResult {
            rendered_card: Some(resolved.card),
            event: Some(plan.event),
            state_updates: plan.state_updates,
            session_updates: plan.session_updates,
            card_features: resolved.features,
            validation_issues: resolved.validation_issues,
            telemetry_events,
        },
    )
}

} // verus!
