//! Rendering, binding, validation and interaction engine for declarative card documents.
use vstd::prelude::*;

pub mod assets;
pub mod binding;
pub mod decimal;
pub mod envelope;
pub mod error;
pub mod expression;
pub mod features;
pub mod interaction;
pub mod json;
pub mod json_read;
pub mod json_text;
pub mod model;
pub mod render;
pub mod state_store;
pub mod text;
pub mod trace;
pub mod validation;

use crate::error::ComponentError;
use crate::interaction::handle_interaction;
use crate::model::{AdaptiveCardInvocation, AdaptiveCardResult, InvocationMode, ValidationMode};
use crate::features::features_of;
use crate::interaction::{interaction_outcome, start_of};
use crate::json::JsonV;
use crate::render::{plain, render_card, rendered_with, source_card, spec_field_missing, LoadedCard};
use crate::state_store::{opt_text, state_key_spec};
use crate::state_store::{load_state_if_missing, state_key_for, StateStore};
use crate::trace::{build_trace_event, telemetry_ok, TraceOptions};
use crate::validation::{card_issues, issues_view};

verus! {

/// Whether the invocation carries an interaction that is not switched off.
pub open spec fn has_active_interaction(inv: &AdaptiveCardInvocation) -> bool {
    inv.interaction matches Some(i) && i.enabled != Some(false)
}

/// What handling an invocation gives, the store holding `before` and then `after`. The state
/// document is the supplied one, else the one stored under the node (or default) key. An active
/// interaction is handled as `interaction_outcome` says. Otherwise the store is untouched and
/// the result is the render failure, or in `Error` mode a card with issues fails with exactly
/// those issues, or else the rendered card (none in `Validate` mode), its features and issues.
pub open spec fn invocation_outcome(
    inv: &AdaptiveCardInvocation,
    loaded: Option<LoadedCard>,
    before: Seq<(Seq<char>, JsonV)>,
    after: Seq<(Seq<char>, JsonV)>,
    trace: TraceOptions,
    r: Result<AdaptiveCardResult, ComponentError>,
) -> bool {
    let s0 = start_of(inv.state@, before, state_key_spec(opt_text(inv.node_id), None));
    if has_active_interaction(inv) {
        interaction_outcome(inv, s0, loaded, before, after, trace, r)
    } else {
        after == before && match source_card(inv, loaded) {
            None => if spec_field_missing(inv) {
                r matches Err(e) && e is InvalidInput
            } else {
                r matches Err(e) && e is AssetNotFound
            },
            Some(c) => match rendered_with(inv, s0, c) {
                None => r matches Err(e) && e is Binding,
                Some(card) => if inv.validation_mode == ValidationMode::Error && card_issues(
                    card,
                ).len() > 0 {
                    r matches Err(ComponentError::CardValidation(v)) && issues_view(v@)
                        == card_issues(card)
                } else {
                    r matches Ok(res) && (if inv.mode == InvocationMode::Validate {
                        res.rendered_card is None
                    } else {
                        res.rendered_card matches Some(rc) && rc@ == card
                    }) && issues_view(res.validation_issues@) == card_issues(card) && features_of(
                        res.card_features,
                        card,
                    ) && res.event is None && res.state_updates@.len() == 0
                        && res.session_updates@.len() == 0 && (plain(c) ==> card == c)
                        && telemetry_ok(res.telemetry_events@, trace)
                },
            },
        }
    }
}

/// Handles one invocation: loads the state when none was supplied, hands an active interaction
/// to the interaction handler, and otherwise renders and validates. In `Error` validation mode a
/// card with issues fails; in `Validate` mode no card is returned.
pub fn handle_invocation(
    invocation: AdaptiveCardInvocation,
    store: &mut StateStore,
    loaded: Option<LoadedCard>,
    trace: TraceOptions,
) -> (r: Result<AdaptiveCardResult, ComponentError>)
    ensures
        invocation_outcome(
            &invocation,
            loaded,
            old(store).contents(),
            final(store).contents(),
            trace,
            r,
        ),
{
    let mut invocation = invocation;
    let active = match &invocation.interaction {
        Some(i) => i.enabled != Some(false),
        None => false,
    };
    let state_loaded = load_state_if_missing(&mut invocation, None, store)?;
    let state_read_hash = match &state_loaded {
        Some(s) => Some(crate::render::hash_json(s)),
        None => None,
    };
    if !active {
        invocation.interaction = None;
    }
    if active {
        return handle_interaction(invocation, store, loaded, trace);
    }
    let rendered = render_card(&invocation, loaded)?;
    if invocation.validation_mode == ValidationMode::Error && rendered.validation_issues.len() > 0 {
        return Err(ComponentError::CardValidation(rendered.validation_issues));
    }
    let mut telemetry_events = Vec::new();
    if trace.enabled {
        let state_key = state_key_for(&invocation, None);
        telemetry_events.push(
            build_trace_event(
                &invocation,
                &rendered.asset_resolution,
                &rendered.binding_summary,
                None,
                Some(state_key),
                state_read_hash,
                None,
                trace.capture_inputs,
            ),
        );
    }
    let rendered_card = match invocation.mode {
        InvocationMode::Validate => None,
        _ => Some(rendered.card),
    };
    Ok(
        AdaptiveCardResult {
            rendered_card,
            event: None,
            state_updates: Vec::new(),
            session_updates: Vec::new(),
            card_features: rendered.features,
            validation_issues: rendered.validation_issues,
            telemetry_events,
        },
    )
}

} // verus!
