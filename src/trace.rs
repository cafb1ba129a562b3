//! The structured trace event of an invocation.
use vstd::prelude::*;

use crate::json::{get_spec, lemma_member_views_eq, member_views, Json, JsonV, Number, NumberV};
use crate::model::{
    AdaptiveCardInvocation, CardInteraction, CardInteractionType, CardSource, TelemetryEvent,
};
use crate::render::{AssetResolution, BindingSummary};

verus! {

/// Whether and how much to trace, as the host configures it.
#[derive(Debug, Clone, Copy, PartialEq, Eq, Structural)]
pub struct TraceOptions {
    pub enabled: bool,
    pub capture_inputs: bool,
}

/// The telemetry of an invocation: one trace event when tracing is on, none otherwise.
pub open spec fn telemetry_ok(events: Seq<TelemetryEvent>, trace: TraceOptions) -> bool {
    if trace.enabled {
        events.len() == 1 && events[0].name@ == "adaptive_card.trace"@ && events[0].properties@ is Object
    } else {
        events.len() == 0
    }
}

/// The name under which a card source is reported.
pub open spec fn source_name(s: CardSource) -> Seq<char> {
    match s {
        CardSource::Inline => "inline"@,
        CardSource::Asset => "asset"@,
        CardSource::Catalog => "catalog"@,
    }
}

fn source_text(s: CardSource) -> (r: String)
    ensures
        r@ == source_name(s),
{
    proof {
        reveal_strlit("inline");
        reveal_strlit("asset");
        reveal_strlit("catalog");
    }
    match s {
        CardSource::Inline => "inline".to_string(),
        CardSource::Asset => "asset".to_string(),
        CardSource::Catalog => "catalog".to_string(),
    }
}

/// The name under which an interaction kind is reported.
pub open spec fn interaction_type_name(t: CardInteractionType) -> Seq<char> {
    match t {
        CardInteractionType::Submit => "Submit"@,
        CardInteractionType::Execute => "Execute"@,
        CardInteractionType::OpenUrl => "OpenUrl"@,
        CardInteractionType::ShowCard => "ShowCard"@,
        CardInteractionType::ToggleVisibility => "ToggleVisibility"@,
    }
}

pub open spec fn text_or_null_spec(s: Option<String>) -> JsonV {
    match s {
        Some(t) => JsonV::Str(t@),
        None => JsonV::Null,
    }
}

pub open spec fn count(n: u64) -> JsonV {
    JsonV::Number(NumberV::PosInt(n))
}

/// The members of a trace event's properties, in order.
pub open spec fn trace_members(
    inv: &AdaptiveCardInvocation,
    res: &AssetResolution,
    b: BindingSummary,
    interaction: Option<&CardInteraction>,
    state_key: Option<String>,
    state_read_hash: Option<String>,
    state_write_hash: Option<String>,
    capture_inputs: bool,
) -> Seq<(Seq<char>, JsonV)> {
    let head = seq![
        ("card_source"@, JsonV::Str(source_name(inv.card_source))),
        (
            "asset_resolution"@,
            JsonV::Object(
                seq![
                    ("mode"@, JsonV::Str(res.mode@)),
                    ("resolved"@, text_or_null_spec(res.resolved)),
                    ("asset_hash"@, text_or_null_spec(res.hash)),
                ],
            ),
        ),
        (
            "bindings_summary"@,
            JsonV::Object(
                seq![
                    ("handlebars_expansions"@, count(b.handlebars_expansions)),
                    ("placeholder_replacements"@, count(b.placeholder_replacements)),
                    ("expression_evaluations"@, count(b.expression_evaluations)),
                    ("missing_paths"@, count(b.missing_paths)),
                ],
            ),
        ),
    ];
    let with_interaction = match interaction {
        Some(i) => head.push(
            (
                "interaction_summary"@,
                JsonV::Object(
                    seq![
                        ("type"@, JsonV::Str(interaction_type_name(i.interaction_type))),
                        ("action_id"@, JsonV::Str(i.action_id@)),
                        ("card_instance_id"@, JsonV::Str(i.card_instance_id@)),
                        (
                            "route"@,
                            match get_spec(i.metadata@, "route"@) {
                                Some(r) => r,
                                None => JsonV::Null,
                            },
                        ),
                    ],
                ),
            ),
        ),
        None => head,
    };
    let with_state = with_interaction.push(
        (
            "state_summary"@,
            JsonV::Object(
                seq![
                    ("state_key"@, text_or_null_spec(state_key)),
                    ("state_read_hash"@, text_or_null_spec(state_read_hash)),
                    ("state_write_hash"@, text_or_null_spec(state_write_hash)),
                ],
            ),
        ),
    );
    if capture_inputs {
        with_state.push(
            (
                "inputs"@,
                JsonV::Object(
                    seq![
                        ("payload"@, inv.payload@),
                        ("session"@, inv.session@),
                        ("state"@, inv.state@),
                        (
                            "interaction_raw_inputs"@,
                            match interaction {
                                Some(i) => i.raw_inputs@,
                                None => JsonV::Null,
                            },
                        ),
                    ],
                ),
            ),
        )
    } else {
        with_state
    }
}

fn interaction_type_text(t: CardInteractionType) -> (r: String)
    ensures
        r@ == interaction_type_name(t),
{
    proof {
        reveal_strlit("Submit");
        reveal_strlit("Execute");
        reveal_strlit("OpenUrl");
        reveal_strlit("ShowCard");
        reveal_strlit("ToggleVisibility");
    }
    match t {
        CardInteractionType::Submit => "Submit".to_string(),
        CardInteractionType::Execute => "Execute".to_string(),
        CardInteractionType::OpenUrl => "OpenUrl".to_string(),
        CardInteractionType::ShowCard => "ShowCard".to_string(),
        CardInteractionType::ToggleVisibility => "ToggleVisibility".to_string(),
    }
}

fn text_or_null(s: &Option<String>) -> (r: Json)
    ensures
        s matches Some(t) ==> r@ == JsonV::Str(t@),
        s is None ==> r@ == JsonV::Null,
{
    match s {
        Some(t) => Json::Str(t.clone()),
        None => Json::Null,
    }
}

fn object(members: Vec<(String, Json)>) -> (r: Json)
    ensures
        r@ == JsonV::Object(member_views(members@)),
{
    Json::Object(members)
}

/// The trace event of one invocation: card source, asset resolution, binding counters,
/// interaction summary, state key and hashes, and the raw inputs when they are captured.
pub fn build_trace_event(
    invocation: &AdaptiveCardInvocation,
    asset_resolution: &AssetResolution,
    binding_summary: &BindingSummary,
    interaction: Option<&CardInteraction>,
    state_key: Option<String>,
    state_read_hash: Option<String>,
    state_write_hash: Option<String>,
    capture_inputs: bool,
) -> (r: TelemetryEvent)
    ensures
        r.name@ == "adaptive_card.trace"@,
        r.properties@ == JsonV::Object(
            trace_members(
                invocation,
                asset_resolution,
                *binding_summary,
                interaction,
                state_key,
                state_read_hash,
                state_write_hash,
                capture_inputs,
            ),
        ),
{
    proof {
        reveal_strlit("card_source");
        reveal_strlit("asset_resolution");
        reveal_strlit("mode");
        reveal_strlit("resolved");
        reveal_strlit("asset_hash");
        reveal_strlit("bindings_summary");
        reveal_strlit("handlebars_expansions");
        reveal_strlit("placeholder_replacements");
        reveal_strlit("expression_evaluations");
        reveal_strlit("missing_paths");
        reveal_strlit("interaction_summary");
        reveal_strlit("type");
        reveal_strlit("action_id");
        reveal_strlit("card_instance_id");
        reveal_strlit("route");
        reveal_strlit("state_summary");
        reveal_strlit("state_key");
        reveal_strlit("state_read_hash");
        reveal_strlit("state_write_hash");
        reveal_strlit("inputs");
        reveal_strlit("payload");
        reveal_strlit("session");
        reveal_strlit("state");
        reveal_strlit("interaction_raw_inputs");
        reveal_strlit("adaptive_card.trace");
    }
    let ghost expected = trace_members(
        invocation,
        asset_resolution,
        *binding_summary,
        interaction,
        state_key,
        state_read_hash,
        state_write_hash,
        capture_inputs,
    );
    let mut asset: Vec<(String, Json)> = Vec::new();
    asset.push(("mode".to_string(), Json::Str(asset_resolution.mode.clone())));
    asset.push(("resolved".to_string(), text_or_null(&asset_resolution.resolved)));
    asset.push(("asset_hash".to_string(), text_or_null(&asset_resolution.hash)));
    let ghost av = seq![
        ("mode"@, JsonV::Str(asset_resolution.mode@)),
        ("resolved"@, text_or_null_spec(asset_resolution.resolved)),
        ("asset_hash"@, text_or_null_spec(asset_resolution.hash)),
    ];
    proof {
        lemma_member_views_eq(asset@, av);
    }
    let mut counts: Vec<(String, Json)> = Vec::new();
    counts.push(
        (
            "handlebars_expansions".to_string(),
            Json::Number(Number::PosInt(binding_summary.handlebars_expansions)),
        ),
    );
    counts.push(
        (
            "placeholder_replacements".to_string(),
            Json::Number(Number::PosInt(binding_summary.placeholder_replacements)),
        ),
    );
    counts.push(
        (
            "expression_evaluations".to_string(),
            Json::Number(Number::PosInt(binding_summary.expression_evaluations)),
        ),
    );
    counts.push(
        ("missing_paths".to_string(), Json::Number(Number::PosInt(binding_summary.missing_paths))),
    );
    let ghost cv = seq![
        ("handlebars_expansions"@, count(binding_summary.handlebars_expansions)),
        ("placeholder_replacements"@, count(binding_summary.placeholder_replacements)),
        ("expression_evaluations"@, count(binding_summary.expression_evaluations)),
        ("missing_paths"@, count(binding_summary.missing_paths)),
    ];
    proof {
        lemma_member_views_eq(counts@, cv);
    }
    let mut props: Vec<(String, Json)> = Vec::new();
    props.push(("card_source".to_string(), Json::Str(source_text(invocation.card_source))));
    props.push(("asset_resolution".to_string(), object(asset)));
    props.push(("bindings_summary".to_string(), object(counts)));
    let ghost head = seq![
        ("card_source"@, JsonV::Str(source_name(invocation.card_source))),
        ("asset_resolution"@, JsonV::Object(av)),
        ("bindings_summary"@, JsonV::Object(cv)),
    ];
    proof {
        lemma_member_views_eq(props@, head);
    }
    let ghost mut sofar = head;
    match interaction {
        Some(i) => {
            let mut summary: Vec<(String, Json)> = Vec::new();
            summary.push(("type".to_string(), Json::Str(interaction_type_text(i.interaction_type))));
            summary.push(("action_id".to_string(), Json::Str(i.action_id.clone())));
            summary.push(("card_instance_id".to_string(), Json::Str(i.card_instance_id.clone())));
            let route = match i.metadata.get("route") {
                Some(v) => v.copy(),
                None => Json::Null,
            };
            summary.push(("route".to_string(), route));
            let ghost sv = seq![
                ("type"@, JsonV::Str(interaction_type_name(i.interaction_type))),
                ("action_id"@, JsonV::Str(i.action_id@)),
                ("card_instance_id"@, JsonV::Str(i.card_instance_id@)),
                (
                    "route"@,
                    match get_spec(i.metadata@, "route"@) {
                        Some(r) => r,
                        None => JsonV::Null,
                    },
                ),
            ];
            proof {
                lemma_member_views_eq(summary@, sv);
            }
            props.push(("interaction_summary".to_string(), object(summary)));
            proof {
                sofar = head.push(("interaction_summary"@, JsonV::Object(sv)));
                lemma_member_views_eq(props@, sofar);
            }
        },
        None => {},
    }
    let mut state: Vec<(String, Json)> = Vec::new();
    state.push(("state_key".to_string(), text_or_null(&state_key)));
    state.push(("state_read_hash".to_string(), text_or_null(&state_read_hash)));
    state.push(("state_write_hash".to_string(), text_or_null(&state_write_hash)));
    let ghost stv = seq![
        ("state_key"@, text_or_null_spec(state_key)),
        ("state_read_hash"@, text_or_null_spec(state_read_hash)),
        ("state_write_hash"@, text_or_null_spec(state_write_hash)),
    ];
    proof {
        lemma_member_views_eq(state@, stv);
    }
    props.push(("state_summary".to_string(), object(state)));
    proof {
        sofar = sofar.push(("state_summary"@, JsonV::Object(stv)));
        lemma_member_views_eq(props@, sofar);
    }
    if capture_inputs {
        let mut inputs: Vec<(String, Json)> = Vec::new();
        inputs.push(("payload".to_string(), invocation.payload.copy()));
        inputs.push(("session".to_string(), invocation.session.copy()));
        inputs.push(("state".to_string(), invocation.state.copy()));
        let raw = match interaction {
            Some(i) => i.raw_inputs.copy(),
            None => Json::Null,
        };
        inputs.push(("interaction_raw_inputs".to_string(), raw));
        let ghost iv = seq![
            ("payload"@, invocation.payload@),
            ("session"@, invocation.session@),
            ("state"@, invocation.state@),
            (
                "interaction_raw_inputs"@,
                match interaction {
                    Some(i) => i.raw_inputs@,
                    None => JsonV::Null,
                },
            ),
        ];
        proof {
            lemma_member_views_eq(inputs@, iv);
        }
        props.push(("inputs".to_string(), object(inputs)));
        proof {
            sofar = sofar.push(("inputs"@, JsonV::Object(iv)));
            lemma_member_views_eq(props@, sofar);
        }
    }
    assert(sofar == expected);
    TelemetryEvent { name: "adaptive_card.trace".to_string(), properties: object(props) }
}

} // verus!
