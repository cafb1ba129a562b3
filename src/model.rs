//! The invocation, interaction and result records of the engine.
use vstd::prelude::*;

use crate::json::Json;

verus! {

/// Declares `greentic_types::InvocationEnvelope`, the host's invocation metadata, which the
/// engine carries through unchanged and never reads.
#[verifier::external_type_specification]
#[verifier::external_body]
pub struct ExInvocationEnvelope(greentic_types::InvocationEnvelope);

/// Where the card document comes from.
#[derive(Clone, Copy, Debug, PartialEq, Eq, Structural)]
pub enum CardSource {
    Inline,
    Asset,
    Catalog,
}

/// The card document, or how to find it, with template parameters.
#[derive(Debug)]
pub struct CardSpec {
    pub inline_json: Option<Json>,
    pub asset_path: Option<String>,
    pub catalog_name: Option<String>,
    pub template_params: Option<Json>,
    /// Asset name to path, consulted before any other candidate.
    pub asset_registry: Option<Vec<(String, String)>>,
}

/// What the invocation asks for.
#[derive(Clone, Copy, Debug, PartialEq, Eq, Structural)]
pub enum InvocationMode {
    Render,
    Validate,
    RenderAndValidate,
}

/// How structural issues are treated.
#[derive(Clone, Copy, Debug, PartialEq, Eq, Structural)]
pub enum ValidationMode {
    Off,
    Warn,
    Error,
}

/// One request to the engine. A `Null` state stands for a state that was not supplied.
#[derive(Debug)]
pub struct AdaptiveCardInvocation {
    pub card_source: CardSource,
    pub card_spec: CardSpec,
    pub node_id: Option<String>,
    pub payload: Json,
    pub session: Json,
    pub state: Json,
    pub interaction: Option<CardInteraction>,
    pub mode: InvocationMode,
    pub validation_mode: ValidationMode,
    pub envelope: Option<greentic_types::InvocationEnvelope>,
}

/// The kind of a user interaction.
#[derive(Clone, Copy, Debug, PartialEq, Eq, Structural)]
pub enum CardInteractionType {
    Submit,
    Execute,
    OpenUrl,
    ShowCard,
    ToggleVisibility,
}

/// A discrete user action against a rendered card instance.
#[derive(Debug)]
pub struct CardInteraction {
    pub enabled: Option<bool>,
    pub interaction_type: CardInteractionType,
    pub action_id: String,
    pub verb: Option<String>,
    pub raw_inputs: Json,
    pub card_instance_id: String,
    pub metadata: Json,
}

/// The kind of a normalized action event.
#[derive(Clone, Copy, Debug, PartialEq, Eq, Structural)]
pub enum AdaptiveActionType {
    Submit,
    Execute,
    OpenUrl,
    ShowCard,
    ToggleVisibility,
}

/// The normalized event that an interaction produces.
#[derive(Debug)]
pub struct AdaptiveActionEvent {
    pub action_type: AdaptiveActionType,
    pub action_id: String,
    pub verb: Option<String>,
    pub route: Option<String>,
    pub inputs: Json,
    pub card_id: String,
    pub card_instance_id: String,
    pub subcard_id: Option<String>,
    pub metadata: Json,
}

/// A mutation of the state document at a dot-separated path.
#[derive(Debug)]
pub enum StateUpdateOp {
    Assign { path: String, value: Json },
    Merge { path: String, value: Json },
    Delete { path: String },
}

/// A change to the caller's session, applied by the caller.
#[derive(Debug)]
pub enum SessionUpdateOp {
    SetRoute { route: String },
    SetAttribute { key: String, value: Json },
    DeleteAttribute { key: String },
    PushCardStack { card_id: String },
    PopCardStack,
}

/// What a card uses.
#[derive(Debug)]
pub struct CardFeatureSummary {
    pub version: Option<String>,
    pub used_elements: Vec<String>,
    pub used_actions: Vec<String>,
    pub uses_show_card: bool,
    pub uses_toggle_visibility: bool,
    pub uses_media: bool,
    pub uses_auth: bool,
    pub requires_features: Json,
}

/// A structural finding about a card document.
#[derive(Debug, Clone, PartialEq)]
pub struct ValidationIssue {
    pub code: String,
    pub message: String,
    pub path: String,
}

/// A structured observability record.
#[derive(Debug)]
pub struct TelemetryEvent {
    pub name: String,
    pub properties: Json,
}

/// Everything one invocation returns.
#[derive(Debug)]
pub struct AdaptiveCardResult {
    pub rendered_card: Option<Json>,
    pub event: Option<AdaptiveActionEvent>,
    pub state_updates: Vec<StateUpdateOp>,
    pub session_updates: Vec<SessionUpdateOp>,
    pub card_features: CardFeatureSummary,
    pub validation_issues: Vec<ValidationIssue>,
    pub telemetry_events: Vec<TelemetryEvent>,
}

} // verus!
