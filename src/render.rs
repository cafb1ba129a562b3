//! The template resolution pipeline: structured templating, then placeholder and expression
//! substitution over every string of the card.
use vstd::prelude::*;

use crate::binding::{resolve_spec, BindingContext, ContextV};
use crate::error::ComponentError;
use crate::expression::{eval_expression, eval_spec};
use crate::json::{
    get_spec, lemma_member_views_eq, lemma_member_views_index, lemma_views_eq,
    lemma_views_index, member, member_views, put, put_member, views, Json, JsonV,
};
use crate::features::{analyze_features, card_features, features_of};
use crate::model::{AdaptiveCardInvocation, CardFeatureSummary, CardSource, ValidationIssue};
use crate::state_store::opt_text;
use crate::validation::{card_issues, issues_view, member_ref, validate_card};
use crate::json_text::{json_text, to_json_string};
use crate::text::{
    chars_of, contains, find_first, first_at, is_whitespace, is_ws, matches_at, occurs_at, string_of,
    sub_chars, trim, trim_bounds,
};

verus! {

/// Running counts of the pipeline's work.
#[derive(Debug, Clone, Copy, PartialEq, Eq, Structural)]
pub struct BindingSummary {
    pub handlebars_expansions: u64,
    pub placeholder_replacements: u64,
    pub expression_evaluations: u64,
    pub missing_paths: u64,
}

impl BindingSummary {
    pub fn new() -> (r: BindingSummary)
        ensures
            r.handlebars_expansions == 0 && r.placeholder_replacements == 0
                && r.expression_evaluations == 0 && r.missing_paths == 0,
    {
        BindingSummary {
            handlebars_expansions: 0,
            placeholder_replacements: 0,
            expression_evaluations: 0,
            missing_paths: 0,
        }
    }
}

/// One more, saturating.
pub open spec fn sat_inc(n: u64) -> u64 {
    if n < u64::MAX {
        (n + 1) as u64
    } else {
        n
    }
}

/// The binding pass's counting: templating expansions untouched, replacements and evaluations
/// never fewer, and one more missing path exactly when the pass fails.
pub open spec fn binding_counts(before: BindingSummary, after: BindingSummary, failed: bool) -> bool {
    &&& after.handlebars_expansions == before.handlebars_expansions
    &&& after.placeholder_replacements >= before.placeholder_replacements
    &&& after.expression_evaluations >= before.expression_evaluations
    &&& after.missing_paths == if failed {
        sat_inc(before.missing_paths)
    } else {
        before.missing_paths
    }
}

/// The templating pass's counting: expansions never fewer, the other counters untouched.
pub open spec fn template_counts(before: BindingSummary, after: BindingSummary) -> bool {
    &&& after.handlebars_expansions >= before.handlebars_expansions
    &&& after.placeholder_replacements == before.placeholder_replacements
    &&& after.expression_evaluations == before.expression_evaluations
    &&& after.missing_paths == before.missing_paths
}

fn bump(n: u64) -> (r: u64)
    ensures
        r == sat_inc(n),
        r >= n,
{
    if n < u64::MAX {
        n + 1
    } else {
        n
    }
}

/// The body of `${...}` when the trimmed text is exactly one such region.
pub open spec fn expression_of(s: Seq<char>) -> Option<Seq<char>> {
    let t = trim(s);
    if t.len() >= 3 && t[0] == '$' && t[1] == '{' && t.last() == '}' {
        Some(trim(t.subrange(2, t.len() - 1)))
    } else {
        None
    }
}

/// The body of `@{...}` when the trimmed text is exactly one such placeholder.
pub open spec fn placeholder_of(s: Seq<char>) -> Option<Seq<char>> {
    let t = trim(s);
    if t.len() >= 3 && t[0] == '@' && t[1] == '{' && t.last() == '}' {
        Some(trim(t.subrange(2, t.len() - 1)))
    } else {
        None
    }
}

/// A direct path: no whitespace, no `?`, no `==` and no `:`.
pub open spec fn is_simple_spec(e: Seq<char>) -> bool {
    let t = trim(e);
    &&& forall|i: int| 0 <= i < t.len() ==> !is_ws(#[trigger] t[i])
    &&& !contains(t, "?"@)
    &&& !contains(t, "=="@)
    &&& !contains(t, ":"@)
}

fn region_body(input: &str, open: char) -> (r: Option<String>)
    ensures
        open == '$' ==> (r matches Some(b) ==> expression_of(input@) == Some(b@)) && (r is None
            ==> expression_of(input@) is None),
        open == '@' ==> (r matches Some(b) ==> placeholder_of(input@) == Some(b@)) && (r is None
            ==> placeholder_of(input@) is None),
{
    let cs = chars_of(input);
    assert(cs@.subrange(0, cs@.len() as int) =~= cs@);
    let (a, b) = trim_bounds(cs.as_slice(), 0, cs.len());
    let ghost t = cs@.subrange(a as int, b as int);
    if b - a >= 3 && cs[a] == open && cs[a + 1] == '{' && cs[b - 1] == '}' {
        let (c, d) = trim_bounds(cs.as_slice(), a + 2, b - 1);
        assert(cs@.subrange(a + 2, b - 1) =~= t.subrange(2, t.len() - 1));
        Some(string_of(cs.as_slice(), c, d))
    } else {
        None
    }
}

/// The body of a whole-string `${...}` expression.
pub fn extract_expression(input: &str) -> (r: Option<String>)
    ensures
        r matches Some(b) ==> expression_of(input@) == Some(b@),
        r is None ==> expression_of(input@) is None,
{
    region_body(input, '$')
}

/// The body of a whole-string `@{...}` placeholder.
pub fn extract_single_placeholder(input: &str) -> (r: Option<String>)
    ensures
        r matches Some(b) ==> placeholder_of(input@) == Some(b@),
        r is None ==> placeholder_of(input@) is None,
{
    region_body(input, '@')
}

/// Whether an expression is a direct path lookup.
pub fn is_simple_expression(expr: &str) -> (r: bool)
    ensures
        r == is_simple_spec(expr@),
{
    let cs = chars_of(expr);
    assert(cs@.subrange(0, cs@.len() as int) =~= cs@);
    let (a, b) = trim_bounds(cs.as_slice(), 0, cs.len());
    let t = string_of(cs.as_slice(), a, b);
    let tc = chars_of(t.as_str());
    let mut i: usize = 0;
    while i < tc.len()
        invariant
            i <= tc@.len(),
            tc@ == trim(expr@),
            forall|j: int| 0 <= j < i ==> !is_ws(#[trigger] tc@[j]),
        decreases tc.len() - i,
    {
        if is_whitespace(tc[i]) {
            assert(is_ws(tc@[i as int]));
            return false;
        }
        i = i + 1;
    }
    let q = chars_of("?");
    let eq = chars_of("==");
    let colon = chars_of(":");
    proof {
        reveal_strlit("?");
        reveal_strlit("==");
        reveal_strlit(":");
    }
    let has_q = find_first(tc.as_slice(), 0, q.as_slice()).is_some();
    let has_eq = find_first(tc.as_slice(), 0, eq.as_slice()).is_some();
    let has_colon = find_first(tc.as_slice(), 0, colon.as_slice()).is_some();
    proof {
        lemma_first_at_contains(tc@, q@);
        lemma_first_at_contains(tc@, eq@);
        lemma_first_at_contains(tc@, colon@);
    }
    !has_q && !has_eq && !has_colon
}

pub proof fn lemma_first_at_contains(s: Seq<char>, pat: Seq<char>)
    requires
        pat.len() > 0,
    ensures
        (first_at(s, pat, 0) is Some) == contains(s, pat),
{
    if first_at(s, pat, 0) is None {
        assert forall|i: int| !occurs_at(s, pat, i) by {
            if occurs_at(s, pat, i) {
                lemma_first_at_none(s, pat, 0, i);
            }
        }
    } else {
        lemma_first_at_some(s, pat, 0);
    }
}

proof fn lemma_first_at_none(s: Seq<char>, pat: Seq<char>, from: int, i: int)
    requires
        0 <= from <= i,
        occurs_at(s, pat, i),
    ensures
        first_at(s, pat, from) is Some,
    decreases s.len() + 1 - from,
{
    if from < i {
        lemma_first_at_none(s, pat, from + 1, i);
    }
}

proof fn lemma_first_at_some(s: Seq<char>, pat: Seq<char>, from: int)
    requires
        first_at(s, pat, from) is Some,
    ensures
        occurs_at(s, pat, first_at(s, pat, from)->0),
    decreases s.len() + 1 - from,
{
    if from >= 0 && from + pat.len() <= s.len() && !occurs_at(s, pat, from) {
        lemma_first_at_some(s, pat, from + 1);
    }
}

/// The text that a resolved value contributes inside a string.
#[verifier::opaque]
pub open spec fn stringify(v: JsonV) -> Seq<char> {
    match v {
        JsonV::Str(t) => t,
        _ => json_text(v),
    }
}

/// The first `@{` or `${` in `s`.
pub open spec fn next_marker(s: Seq<char>) -> Option<int> {
    match (first_at(s, "@{"@, 0), first_at(s, "${"@, 0)) {
        (Some(a), Some(b)) => Some(if a <= b {
            a
        } else {
            b
        }),
        (Some(a), None) => Some(a),
        (None, Some(b)) => Some(b),
        (None, None) => None,
    }
}

/// `s` with each `@{path}` or `${path}` replaced, left to right, by the text of what the path
/// resolves to; a marker without a closing brace stays as it is. None when a path resolves to
/// nothing.
pub open spec fn placeholders_spec(ctx: ContextV, s: Seq<char>) -> Option<Seq<char>>
    decreases s.len(),
{
    match next_marker(s) {
        None => Some(s),
        Some(pos) => if 0 <= pos && pos + 2 <= s.len() {
            let rest = s.subrange(pos + 2, s.len() as int);
            match first_at(rest, "}"@, 0) {
                Some(end) => if 0 <= end < rest.len() {
                    match resolve_spec(ctx, trim(rest.subrange(0, end))) {
                        Some(v) => match placeholders_spec(
                            ctx,
                            rest.subrange(end + 1, rest.len() as int),
                        ) {
                            Some(t) => Some(s.subrange(0, pos) + stringify(v) + t),
                            None => None,
                        },
                        None => None,
                    }
                } else {
                    Some(s)
                },
                None => match placeholders_spec(ctx, s.subrange(pos + 1, s.len() as int)) {
                    Some(t) => Some(s.subrange(0, pos + 1) + t),
                    None => None,
                },
            }
        } else {
            Some(s)
        },
    }
}

/// The text of a resolved value.
pub fn stringify_value(v: Json) -> (r: String)
    ensures
        r@ == stringify(v@),
{
    proof {
        reveal(stringify);
    }
    match v {
        Json::Str(t) => t,
        other => to_json_string(&other),
    }
}

fn append3(a: String, b: &str, c: &str) -> (r: String)
    ensures
        r@ == a@ + b@ + c@,
{
    let mut s = a;
    s.append(b);
    s.append(c);
    s
}

fn missing_path(path: &str) -> (r: ComponentError)
    ensures
        r is Binding,
{
    let mut m = "missing binding path: ".to_string();
    m.append(path);
    ComponentError::Binding(m)
}

fn replace_from(ctx: &BindingContext, cs: &Vec<char>, summary: &mut BindingSummary) -> (r: Result<
    String,
    ComponentError,
>)
    ensures
        r matches Ok(t) ==> placeholders_spec(ctx@, cs@) == Some(t@),
        r matches Err(e) ==> placeholders_spec(ctx@, cs@) is None && e is Binding,
        binding_counts(*old(summary), *final(summary), r is Err),
    decreases cs@.len(),
{
    let at = chars_of("@{");
    let dollar = chars_of("${");
    let close = chars_of("}");
    proof {
        reveal_strlit("@{");
        reveal_strlit("${");
        reveal_strlit("}");
        assert(at@.len() == 2 && dollar@.len() == 2 && close@.len() == 1);
    }
    let a = find_first(cs.as_slice(), 0, at.as_slice());
    let d = find_first(cs.as_slice(), 0, dollar.as_slice());
    let pos = match (a, d) {
        (Some(x), Some(y)) => if x <= y {
            x
        } else {
            y
        },
        (Some(x), None) => x,
        (None, Some(y)) => y,
        (None, None) => {
            assert(cs@.subrange(0, cs@.len() as int) =~= cs@);
            return Ok(string_of(cs.as_slice(), 0, cs.len()));
        },
    };
    let n = cs.len();
    assert(next_marker(cs@) == Some(pos as int));
    assert(pos + 2 <= n);
    let rest = sub_chars(cs.as_slice(), pos + 2, n);
    match find_first(rest.as_slice(), 0, close.as_slice()) {
        Some(end) => {
            let (x, y) = trim_bounds(rest.as_slice(), 0, end);
            let path = string_of(rest.as_slice(), x, y);
            match ctx.lookup(path.as_str()) {
                Some(v) => {
                    let repl = stringify_value(v);
                    summary.placeholder_replacements = bump(summary.placeholder_replacements);
                    let tail = sub_chars(rest.as_slice(), end + 1, rest.len());
                    let t = replace_from(ctx, &tail, summary)?;
                    let prefix = string_of(cs.as_slice(), 0, pos);
                    assert(first_at(rest@, "}"@, 0) == Some(end as int));
                    assert(trim(rest@.subrange(0, end as int)) == path@);
                    assert(tail@ == rest@.subrange(end + 1, rest@.len() as int));
                    Ok(append3(prefix, repl.as_str(), t.as_str()))
                },
                None => {
                    summary.missing_paths = bump(summary.missing_paths);
                    let raw = string_of(rest.as_slice(), 0, end);
                    Err(missing_path(raw.as_str()))
                },
            }
        },
        None => {
            let tail = sub_chars(cs.as_slice(), pos + 1, n);
            let t = replace_from(ctx, &tail, summary)?;
            let prefix = string_of(cs.as_slice(), 0, pos + 1);
            proof {
                reveal_strlit("");
            }
            let r = append3(prefix, t.as_str(), "");
            assert(r@ =~= cs@.subrange(0, pos + 1) + t@);
            Ok(r)
        },
    }
}

/// Substitutes every `@{...}` and `${...}` placeholder of `input`, left to right.
pub fn replace_placeholders(input: &str, ctx: &BindingContext, summary: &mut BindingSummary) -> (r:
    Result<String, ComponentError>)
    ensures
        r matches Ok(t) ==> placeholders_spec(ctx@, input@) == Some(t@),
        r matches Err(e) ==> placeholders_spec(ctx@, input@) is None && e is Binding,
        binding_counts(*old(summary), *final(summary), r is Err),
{
    let cs = chars_of(input);
    replace_from(ctx, &cs, summary)
}

/// What one string of the card becomes: a whole-string expression or placeholder may give any
/// value; otherwise every placeholder is substituted in place.
pub open spec fn bind_text(ctx: ContextV, s: Seq<char>) -> Option<JsonV> {
    match expression_of(s) {
        Some(e) => if is_simple_spec(e) {
            resolve_spec(ctx, e)
        } else {
            match eval_spec(ctx, e) {
                Some(v) => Some(
                    match v {
                        JsonV::Str(_) => v,
                        _ => JsonV::Str(json_text(v)),
                    },
                ),
                None => None,
            }
        },
        None => match placeholder_of(s) {
            Some(p) => resolve_spec(ctx, p),
            None => match placeholders_spec(ctx, s) {
                Some(t) => Some(JsonV::Str(t)),
                None => None,
            },
        },
    }
}

/// The card with every string bound; none when any binding fails.
pub open spec fn bind_spec(ctx: ContextV, v: JsonV) -> Option<JsonV>
    decreases v,
{
    match v {
        JsonV::Str(s) => bind_text(ctx, s),
        JsonV::Array(items) => match bind_items(ctx, items) {
            Some(b) => Some(JsonV::Array(b)),
            None => None,
        },
        JsonV::Object(m) => match bind_members(ctx, m) {
            Some(b) => Some(JsonV::Object(b)),
            None => None,
        },
        _ => Some(v),
    }
}

pub open spec fn bind_items(ctx: ContextV, items: Seq<JsonV>) -> Option<Seq<JsonV>>
    decreases items,
{
    if items.len() == 0 {
        Some(Seq::empty())
    } else {
        match (bind_items(ctx, items.drop_last()), bind_spec(ctx, items.last())) {
            (Some(a), Some(b)) => Some(a.push(b)),
            _ => None,
        }
    }
}

pub open spec fn bind_members(ctx: ContextV, m: Seq<(Seq<char>, JsonV)>) -> Option<
    Seq<(Seq<char>, JsonV)>,
>
    decreases m,
{
    if m.len() == 0 {
        Some(Seq::empty())
    } else {
        match (bind_members(ctx, m.drop_last()), bind_spec(ctx, m.last().1)) {
            (Some(a), Some(b)) => Some(a.push((m.last().0, b))),
            _ => None,
        }
    }
}

fn bind_string(text: &String, ctx: &BindingContext, summary: &mut BindingSummary) -> (r: Result<
    Json,
    ComponentError,
>)
    ensures
        r matches Ok(v) ==> bind_text(ctx@, text@) == Some(v@),
        r matches Err(e) ==> bind_text(ctx@, text@) is None && e is Binding,
        binding_counts(*old(summary), *final(summary), r is Err),
{
    match extract_expression(text.as_str()) {
        Some(expr) => {
            if is_simple_expression(expr.as_str()) {
                match ctx.lookup(expr.as_str()) {
                    Some(v) => {
                        summary.placeholder_replacements = bump(summary.placeholder_replacements);
                        Ok(v)
                    },
                    None => {
                        summary.missing_paths = bump(summary.missing_paths);
                        Err(missing_path(expr.as_str()))
                    },
                }
            } else {
                match eval_expression(ctx, expr.as_str()) {
                    Some(v) => {
                        summary.expression_evaluations = bump(summary.expression_evaluations);
                        match v {
                            Json::Str(t) => Ok(Json::Str(t)),
                            other => Ok(Json::Str(to_json_string(&other))),
                        }
                    },
                    None => {
                        summary.missing_paths = bump(summary.missing_paths);
                        let mut m = "invalid expression: ".to_string();
                        m.append(expr.as_str());
                        Err(ComponentError::Binding(m))
                    },
                }
            }
        },
        None => match extract_single_placeholder(text.as_str()) {
            Some(path) => match ctx.lookup(path.as_str()) {
                Some(v) => {
                    summary.placeholder_replacements = bump(summary.placeholder_replacements);
                    Ok(v)
                },
                None => {
                    summary.missing_paths = bump(summary.missing_paths);
                    Err(missing_path(path.as_str()))
                },
            },
            None => {
                let t = replace_placeholders(text.as_str(), ctx, summary)?;
                Ok(Json::Str(t))
            },
        },
    }
}

/// Binds every string of `value`, depth first; the first failure aborts.
pub fn apply_bindings(value: &Json, ctx: &BindingContext, summary: &mut BindingSummary) -> (r:
    Result<Json, ComponentError>)
    ensures
        r matches Ok(v) ==> bind_spec(ctx@, value@) == Some(v@),
        r matches Err(e) ==> bind_spec(ctx@, value@) is None && e is Binding,
        binding_counts(*old(summary), *final(summary), r is Err),
    decreases value,
{
    match value {
        Json::Str(text) => bind_string(text, ctx, summary),
        Json::Array(items) => {
            proof {
                lemma_views_index(items@);
            }
            let ghost iv = views(items@);
            let mut out: Vec<Json> = Vec::new();
            let mut i: usize = 0;
            assert(iv.subrange(0, 0) =~= Seq::<JsonV>::empty());
            proof {
                lemma_views_eq(out@, Seq::empty());
            }
            while i < items.len()
                invariant
                    *value == Json::Array(*items),
                    i <= items@.len(),
                    iv == views(items@),
                    iv.len() == items@.len(),
                    forall|j: int| 0 <= j < items@.len() ==> #[trigger] iv[j] == items@[j]@,
                    bind_items(ctx@, iv.subrange(0, i as int)) == Some(views(out@)),
                    binding_counts(*old(summary), *summary, false),
                decreases items.len() - i,
            {
                proof {
                    assert(decreases_to!(*value => value->Array_0));
                    assert(decreases_to!(*items => items@));
                    assert(decreases_to!(items@ => items@[i as int]));
                    assert(iv.subrange(0, i + 1).drop_last() =~= iv.subrange(0, i as int));
                    lemma_views_index(out@);
                }
                let ghost before = views(out@);
                match apply_bindings(&items[i], ctx, summary) {
                    Ok(b) => {
                        let ghost bv = b@;
                        out.push(b);
                        proof {
                            lemma_views_eq(out@, before.push(bv));
                        }
                    },
                    Err(e) => {
                        assert(bind_items(ctx@, iv.subrange(0, i + 1)) is None);
                        proof {
                            lemma_bind_items_prefix(ctx@, iv, i + 1);
                        }
                        return Err(e);
                    },
                }
                i = i + 1;
            }
            assert(iv.subrange(0, i as int) =~= iv);
            Ok(Json::Array(out))
        },
        Json::Object(members) => {
            proof {
                lemma_member_views_index(members@);
            }
            let ghost mv = member_views(members@);
            let mut out: Vec<(String, Json)> = Vec::new();
            let mut i: usize = 0;
            assert(mv.subrange(0, 0) =~= Seq::<(Seq<char>, JsonV)>::empty());
            proof {
                lemma_member_views_eq(out@, Seq::empty());
            }
            while i < members.len()
                invariant
                    *value == Json::Object(*members),
                    i <= members@.len(),
                    mv == member_views(members@),
                    mv.len() == members@.len(),
                    forall|j: int|
                        0 <= j < members@.len() ==> #[trigger] mv[j] == (
                            members@[j].0@,
                            members@[j].1@,
                        ),
                    bind_members(ctx@, mv.subrange(0, i as int)) == Some(member_views(out@)),
                    binding_counts(*old(summary), *summary, false),
                decreases members.len() - i,
            {
                proof {
                    assert(decreases_to!(*value => value->Object_0));
                    assert(decreases_to!(*members => members@));
                    assert(decreases_to!(members@ => members@[i as int]));
                    assert(decreases_to!(members@[i as int] => members@[i as int].1));
                    assert(mv.subrange(0, i + 1).drop_last() =~= mv.subrange(0, i as int));
                    lemma_member_views_index(out@);
                }
                let ghost before = member_views(out@);
                match apply_bindings(&members[i].1, ctx, summary) {
                    Ok(b) => {
                        let ghost bv = b@;
                        let k = members[i].0.clone();
                        out.push((k, b));
                        proof {
                            lemma_member_views_eq(out@, before.push((mv[i as int].0, bv)));
                        }
                    },
                    Err(e) => {
                        assert(bind_members(ctx@, mv.subrange(0, i + 1)) is None);
                        proof {
                            lemma_bind_members_prefix(ctx@, mv, i + 1);
                        }
                        return Err(e);
                    },
                }
                i = i + 1;
            }
            assert(mv.subrange(0, i as int) =~= mv);
            Ok(Json::Object(out))
        },
        Json::Null => Ok(Json::Null),
        Json::Bool(b) => Ok(Json::Bool(*b)),
        Json::Number(_) => Ok(value.copy()),
    }
}

proof fn lemma_plain_text_binds(ctx: ContextV, s: Seq<char>)
    requires
        plain_text(s),
    ensures
        bind_text(ctx, s) == Some(JsonV::Str(s)),
{
    reveal_strlit("${");
    reveal_strlit("@{");
    crate::text::lemma_lead_ws(s);
    let a = crate::text::lead_ws(s) as int;
    let t0 = crate::text::trim_start(s);
    let t = trim(s);
    crate::text::lemma_trail_ws(t0);
    if t.len() >= 3 && t[0] == '$' && t[1] == '{' {
        assert(t[0] == s[a] && t[1] == s[a + 1]);
        assert(s.subrange(a, a + 2) =~= "${"@);
        assert(occurs_at(s, "${"@, a));
    }
    if t.len() >= 3 && t[0] == '@' && t[1] == '{' {
        assert(t[0] == s[a] && t[1] == s[a + 1]);
        assert(s.subrange(a, a + 2) =~= "@{"@);
        assert(occurs_at(s, "@{"@, a));
    }
    if first_at(s, "@{"@, 0) is Some {
        lemma_first_at_some(s, "@{"@, 0);
    }
    if first_at(s, "${"@, 0) is Some {
        lemma_first_at_some(s, "${"@, 0);
    }
}

/// A plain document binds to itself, whatever the context.
pub proof fn lemma_plain_binds(ctx: ContextV, v: JsonV)
    requires
        plain(v),
    ensures
        bind_spec(ctx, v) == Some(v),
    decreases v,
{
    match v {
        JsonV::Str(s) => lemma_plain_text_binds(ctx, s),
        JsonV::Array(items) => lemma_plain_items_bind(ctx, items),
        JsonV::Object(m) => lemma_plain_members_bind(ctx, m),
        _ => {},
    }
}

proof fn lemma_plain_items_bind(ctx: ContextV, items: Seq<JsonV>)
    requires
        forall|j: int| 0 <= j < items.len() ==> plain(#[trigger] items[j]),
    ensures
        bind_items(ctx, items) == Some(items),
    decreases items,
{
    if items.len() > 0 {
        let init = items.drop_last();
        assert forall|j: int| 0 <= j < init.len() implies plain(#[trigger] init[j]) by {
            assert(init[j] == items[j]);
        }
        lemma_plain_items_bind(ctx, init);
        assert(plain(items[items.len() - 1]));
        lemma_plain_binds(ctx, items.last());
        assert(init.push(items.last()) =~= items);
    }
}

proof fn lemma_plain_members_bind(ctx: ContextV, m: Seq<(Seq<char>, JsonV)>)
    requires
        forall|j: int| 0 <= j < m.len() ==> plain(#[trigger] m[j].1),
    ensures
        bind_members(ctx, m) == Some(m),
    decreases m,
{
    if m.len() > 0 {
        let init = m.drop_last();
        assert forall|j: int| 0 <= j < init.len() implies plain(#[trigger] init[j].1) by {
            assert(init[j] == m[j]);
        }
        lemma_plain_members_bind(ctx, init);
        assert(plain(m[m.len() - 1].1));
        lemma_plain_binds(ctx, m.last().1);
        assert(init.push((m.last().0, m.last().1)) =~= m);
    }
}

/// A plain document comes through templating unchanged, whatever the data.
pub proof fn lemma_plain_templated(v: JsonV, data: Seq<char>)
    requires
        plain(v),
    ensures
        templated_spec(v, data) == Some(v),
    decreases v,
{
    match v {
        JsonV::Array(items) => lemma_plain_items_templated(items, data),
        JsonV::Object(m) => lemma_plain_members_templated(m, data),
        _ => {},
    }
}

proof fn lemma_plain_items_templated(items: Seq<JsonV>, data: Seq<char>)
    requires
        forall|j: int| 0 <= j < items.len() ==> plain(#[trigger] items[j]),
    ensures
        templated_items(items, data) == Some(items),
    decreases items,
{
    if items.len() > 0 {
        let init = items.drop_last();
        assert forall|j: int| 0 <= j < init.len() implies plain(#[trigger] init[j]) by {
            assert(init[j] == items[j]);
        }
        lemma_plain_items_templated(init, data);
        assert(plain(items[items.len() - 1]));
        lemma_plain_templated(items.last(), data);
        assert(init.push(items.last()) =~= items);
    }
}

proof fn lemma_plain_members_templated(m: Seq<(Seq<char>, JsonV)>, data: Seq<char>)
    requires
        forall|j: int| 0 <= j < m.len() ==> plain(#[trigger] m[j].1),
    ensures
        templated_members(m, data) == Some(m),
    decreases m,
{
    if m.len() > 0 {
        let init = m.drop_last();
        assert forall|j: int| 0 <= j < init.len() implies plain(#[trigger] init[j].1) by {
            assert(init[j] == m[j]);
        }
        lemma_plain_members_templated(init, data);
        assert(plain(m[m.len() - 1].1));
        lemma_plain_templated(m.last().1, data);
        assert(init.push((m.last().0, m.last().1)) =~= m);
    }
}

/// A card with no templating or binding marker renders as itself, whatever the invocation.
pub proof fn lemma_plain_renders(inv: &AdaptiveCardInvocation, state: JsonV, c: JsonV)
    requires
        plain(c),
    ensures
        rendered_with(inv, state, c) == Some(c),
{
    lemma_plain_templated(c, json_text(template_context(inv.payload@, state, opt_text(inv.node_id))));
    lemma_plain_binds(context_with(inv, state), c);
}

proof fn lemma_bind_items_prefix(ctx: ContextV, items: Seq<JsonV>, n: int)
    requires
        0 <= n <= items.len(),
        bind_items(ctx, items.subrange(0, n)) is None,
    ensures
        bind_items(ctx, items) is None,
    decreases items.len() - n,
{
    if n < items.len() {
        assert(items.subrange(0, n + 1).drop_last() =~= items.subrange(0, n));
        lemma_bind_items_prefix(ctx, items, n + 1);
    } else {
        assert(items.subrange(0, n) =~= items);
    }
}

proof fn lemma_bind_members_prefix(ctx: ContextV, m: Seq<(Seq<char>, JsonV)>, n: int)
    requires
        0 <= n <= m.len(),
        bind_members(ctx, m.subrange(0, n)) is None,
    ensures
        bind_members(ctx, m) is None,
    decreases m.len() - n,
{
    if n < m.len() {
        assert(m.subrange(0, n + 1).drop_last() =~= m.subrange(0, n));
        lemma_bind_members_prefix(ctx, m, n + 1);
    } else {
        assert(m.subrange(0, n) =~= m);
    }
}

/// A text with no templating or binding marker: no `{{`, `@{` or `${`.
pub open spec fn plain_text(s: Seq<char>) -> bool {
    !contains(s, "{{"@) && !contains(s, "@{"@) && !contains(s, "${"@)
}

/// A document whose strings are all plain.
pub open spec fn plain(v: JsonV) -> bool
    decreases v,
{
    match v {
        JsonV::Str(s) => plain_text(s),
        JsonV::Array(items) => forall|j: int| 0 <= j < items.len() ==> plain(#[trigger] items[j]),
        JsonV::Object(m) => forall|j: int| 0 <= j < m.len() ==> plain(#[trigger] m[j].1),
        _ => true,
    }
}

/// What handlebars renders for `template` against the JSON text `data`, or none where it
/// fails.
pub uninterp spec fn handlebars_output(template: Seq<char>, data: Seq<char>) -> Option<Seq<char>>;

/// Whether, from `j` on, only whitespace, `~` and `#` stand before a `*` or a `>`: the opening
/// of a decorator, an inline partial, a partial or a partial block after a `{{`.
pub open spec fn opens_partial(s: Seq<char>, j: int) -> bool
    decreases s.len() - j,
{
    if j < 0 || j >= s.len() {
        false
    } else if s[j] == '*' || s[j] == '>' {
        true
    } else if s[j] == ' ' || s[j] == '\t' || s[j] == '\n' || s[j] == '\r' || s[j] == '~' || s[j]
        == '#' {
        opens_partial(s, j + 1)
    } else {
        false
    }
}

/// A template with no partial or decorator syntax: no `{{` opens one.
pub open spec fn partial_free(s: Seq<char>) -> bool {
    forall|i: int| occurs_at(s, "{{"@, i) ==> !opens_partial(s, i + 2)
}

fn opens_partial_exec(cs: &[char], j: usize) -> (r: bool)
    ensures
        r == opens_partial(cs@, j as int),
{
    let mut k = j;
    while k < cs.len() && (cs[k] == ' ' || cs[k] == '\t' || cs[k] == '\n' || cs[k] == '\r' || cs[k]
        == '~' || cs[k] == '#')
        invariant
            j <= k,
            opens_partial(cs@, k as int) == opens_partial(cs@, j as int),
        decreases cs.len() - k,
    {
        k = k + 1;
    }
    k < cs.len() && (cs[k] == '*' || cs[k] == '>')
}

/// Whether a template is free of partial and decorator syntax.
pub fn is_partial_free(s: &str) -> (r: bool)
    ensures
        r == partial_free(s@),
{
    let cs = chars_of(s);
    let open = chars_of("{{");
    proof {
        reveal_strlit("{{");
    }
    let n = cs.len();
    assert(open@.len() == 2);
    let mut i: usize = 0;
    while i < n
        invariant
            n == cs@.len(),
            cs@ == s@,
            open@ == "{{"@,
            open@.len() == 2,
            i <= cs@.len(),
            forall|k: int| 0 <= k < i ==> !(occurs_at(cs@, "{{"@, k) && opens_partial(cs@, k + 2)),
        decreases cs.len() - i,
    {
        if matches_at(cs.as_slice(), i, open.as_slice()) {
            assert(open@.len() == 2);
            assert(i + 2 <= n);
            if opens_partial_exec(cs.as_slice(), i + 2) {
                return false;
            }
        }
        i = i + 1;
    }
    assert forall|k: int| occurs_at(cs@, "{{"@, k) implies !opens_partial(cs@, k + 2) by {
        assert(k < cs@.len());
    }
    true
}

/// Relies on `handlebars::Handlebars::render_template` (strict mode off), with `data` read by
/// `serde_json::from_str`: the output depends on the two texts alone, and a template without
/// `{{` is raw text that renders as itself. Without partial or decorator syntax no inline
/// partial can be defined, so no template includes itself and rendering returns.
#[verifier::external_body]
fn render_template(template: &str, data: &str) -> (r: Result<String, String>)
    requires
        partial_free(template@),
    ensures
        r matches Ok(t) ==> handlebars_output(template@, data@) == Some(t@),
        r is Err ==> handlebars_output(template@, data@) is None,
        r matches Ok(t) ==> (!contains(template@, "{{"@) ==> t@ == template@),
{
    let ctx: serde_json::Value = serde_json::from_str(data).map_err(|e| e.to_string())?;
    let mut engine = handlebars::Handlebars::new();
    engine.set_strict_mode(false);
    engine.render_template(template, &ctx).map_err(|e| e.to_string())
}

/// Whether `s` holds `{{`.
fn has_mustache(s: &str) -> (r: bool)
    ensures
        r == contains(s@, "{{"@),
{
    let cs = chars_of(s);
    let pat = chars_of("{{");
    proof {
        reveal_strlit("{{");
    }
    let found = find_first(cs.as_slice(), 0, pat.as_slice()).is_some();
    proof {
        lemma_first_at_contains(cs@, pat@);
    }
    found
}

/// The card with every string that holds `{{` rendered by handlebars against `data`; a string
/// without `{{` is raw template text, which renders as itself, and one with partial or
/// decorator syntax fails.
pub open spec fn templated_spec(v: JsonV, data: Seq<char>) -> Option<JsonV>
    decreases v,
{
    match v {
        JsonV::Str(s) => if contains(s, "{{"@) {
            if partial_free(s) {
                match handlebars_output(s, data) {
                    Some(t) => Some(JsonV::Str(t)),
                    None => None,
                }
            } else {
                None
            }
        } else {
            Some(v)
        },
        JsonV::Array(items) => match templated_items(items, data) {
            Some(b) => Some(JsonV::Array(b)),
            None => None,
        },
        JsonV::Object(m) => match templated_members(m, data) {
            Some(b) => Some(JsonV::Object(b)),
            None => None,
        },
        _ => Some(v),
    }
}

pub open spec fn templated_items(items: Seq<JsonV>, data: Seq<char>) -> Option<Seq<JsonV>>
    decreases items,
{
    if items.len() == 0 {
        Some(Seq::empty())
    } else {
        match (templated_items(items.drop_last(), data), templated_spec(items.last(), data)) {
            (Some(a), Some(b)) => Some(a.push(b)),
            _ => None,
        }
    }
}

pub open spec fn templated_members(m: Seq<(Seq<char>, JsonV)>, data: Seq<char>) -> Option<
    Seq<(Seq<char>, JsonV)>,
>
    decreases m,
{
    if m.len() == 0 {
        Some(Seq::empty())
    } else {
        match (templated_members(m.drop_last(), data), templated_spec(m.last().1, data)) {
            (Some(a), Some(b)) => Some(a.push((m.last().0, b))),
            _ => None,
        }
    }
}

/// Renders every string of `value` through handlebars; the first failure aborts.
pub fn render_handlebars_value(value: &Json, data: &str, summary: &mut BindingSummary) -> (r:
    Result<Json, ComponentError>)
    ensures
        r matches Ok(v) ==> templated_spec(value@, data@) == Some(v@),
        r matches Err(e) ==> templated_spec(value@, data@) is None && e is Binding,
        r matches Ok(v) ==> (plain(value@) ==> v@ == value@),
        template_counts(*old(summary), *final(summary)),
    decreases value,
{
    match value {
        Json::Str(text) if !has_mustache(text.as_str()) => {
            summary.handlebars_expansions = bump(summary.handlebars_expansions);
            Ok(Json::Str(text.clone()))
        },
        Json::Str(text) if !is_partial_free(text.as_str()) => {
            let mut m = "handlebars: partials and decorators are not supported: ".to_string();
            m.append(text.as_str());
            Err(ComponentError::Binding(m))
        },
        Json::Str(text) => match render_template(text.as_str(), data) {
            Ok(t) => {
                summary.handlebars_expansions = bump(summary.handlebars_expansions);
                Ok(Json::Str(t))
            },
            Err(msg) => {
                let mut m = "handlebars: ".to_string();
                m.append(msg.as_str());
                Err(ComponentError::Binding(m))
            },
        },
        Json::Array(items) => {
            proof {
                lemma_views_index(items@);
            }
            let ghost iv = views(items@);
            let mut out: Vec<Json> = Vec::new();
            let mut i: usize = 0;
            assert(iv.subrange(0, 0) =~= Seq::<JsonV>::empty());
            proof {
                lemma_views_eq(out@, Seq::empty());
            }
            while i < items.len()
                invariant
                    *value == Json::Array(*items),
                    i <= items@.len(),
                    iv == views(items@),
                    iv.len() == items@.len(),
                    forall|j: int| 0 <= j < items@.len() ==> #[trigger] iv[j] == items@[j]@,
                    templated_items(iv.subrange(0, i as int), data@) == Some(views(out@)),
                    template_counts(*old(summary), *summary),
                    plain(value@) ==> views(out@) == iv.subrange(0, i as int),
                decreases items.len() - i,
            {
                proof {
                    assert(decreases_to!(*value => value->Array_0));
                    assert(decreases_to!(*items => items@));
                    assert(decreases_to!(items@ => items@[i as int]));
                    assert(iv.subrange(0, i + 1).drop_last() =~= iv.subrange(0, i as int));
                    lemma_views_index(out@);
                }
                let ghost before = views(out@);
                match render_handlebars_value(&items[i], data, summary) {
                    Ok(b) => {
                        let ghost bv = b@;
                        out.push(b);
                        proof {
                            lemma_views_eq(out@, before.push(bv));
                            if plain(value@) {
                                assert(plain(iv[i as int]));
                                assert(iv.subrange(0, i + 1) =~= iv.subrange(0, i as int).push(iv[i as int]));
                            }
                        }
                    },
                    Err(e) => {
                        proof {
                            lemma_templated_items_prefix(iv, data@, i + 1);
                        }
                        return Err(e);
                    },
                }
                i = i + 1;
            }
            assert(iv.subrange(0, i as int) =~= iv);
            proof {
                if plain(value@) {
                    lemma_views_index(out@);
                    assert(views(out@) =~= iv);
                }
            }
            Ok(Json::Array(out))
        },
        Json::Object(members) => {
            proof {
                lemma_member_views_index(members@);
            }
            let ghost mv = member_views(members@);
            let mut out: Vec<(String, Json)> = Vec::new();
            let mut i: usize = 0;
            assert(mv.subrange(0, 0) =~= Seq::<(Seq<char>, JsonV)>::empty());
            proof {
                lemma_member_views_eq(out@, Seq::empty());
            }
            while i < members.len()
                invariant
                    *value == Json::Object(*members),
                    i <= members@.len(),
                    mv == member_views(members@),
                    mv.len() == members@.len(),
                    forall|j: int|
                        0 <= j < members@.len() ==> #[trigger] mv[j] == (
                            members@[j].0@,
                            members@[j].1@,
                        ),
                    templated_members(mv.subrange(0, i as int), data@) == Some(member_views(out@)),
                    template_counts(*old(summary), *summary),
                    plain(value@) ==> member_views(out@) == mv.subrange(0, i as int),
                decreases members.len() - i,
            {
                proof {
                    assert(decreases_to!(*value => value->Object_0));
                    assert(decreases_to!(*members => members@));
                    assert(decreases_to!(members@ => members@[i as int]));
                    assert(decreases_to!(members@[i as int] => members@[i as int].1));
                    assert(mv.subrange(0, i + 1).drop_last() =~= mv.subrange(0, i as int));
                    lemma_member_views_index(out@);
                }
                let ghost before = member_views(out@);
                match render_handlebars_value(&members[i].1, data, summary) {
                    Ok(b) => {
                        let ghost bv = b@;
                        let k = members[i].0.clone();
                        out.push((k, b));
                        proof {
                            lemma_member_views_eq(out@, before.push((mv[i as int].0, bv)));
                            if plain(value@) {
                                assert(plain(mv[i as int].1));
                                assert(mv.subrange(0, i + 1) =~= mv.subrange(0, i as int).push(mv[i as int]));
                            }
                        }
                    },
                    Err(e) => {
                        proof {
                            lemma_templated_members_prefix(mv, data@, i + 1);
                        }
                        return Err(e);
                    },
                }
                i = i + 1;
            }
            assert(mv.subrange(0, i as int) =~= mv);
            Ok(Json::Object(out))
        },
        Json::Null => Ok(Json::Null),
        Json::Bool(b) => Ok(Json::Bool(*b)),
        Json::Number(_) => Ok(value.copy()),
    }
}

proof fn lemma_templated_items_prefix(items: Seq<JsonV>, data: Seq<char>, n: int)
    requires
        0 <= n <= items.len(),
        templated_items(items.subrange(0, n), data) is None,
    ensures
        templated_items(items, data) is None,
    decreases items.len() - n,
{
    if n < items.len() {
        assert(items.subrange(0, n + 1).drop_last() =~= items.subrange(0, n));
        lemma_templated_items_prefix(items, data, n + 1);
    } else {
        assert(items.subrange(0, n) =~= items);
    }
}

proof fn lemma_templated_members_prefix(m: Seq<(Seq<char>, JsonV)>, data: Seq<char>, n: int)
    requires
        0 <= n <= m.len(),
        templated_members(m.subrange(0, n), data) is None,
    ensures
        templated_members(m, data) is None,
    decreases m.len() - n,
{
    if n < m.len() {
        assert(m.subrange(0, n + 1).drop_last() =~= m.subrange(0, n));
        lemma_templated_members_prefix(m, data, n + 1);
    } else {
        assert(m.subrange(0, n) =~= m);
    }
}

/// The JSON object of a node's state, `state.nodes.<node_id>`.
pub open spec fn state_node(state: JsonV, node_id: Seq<char>) -> Option<Seq<(Seq<char>, JsonV)>> {
    match get_spec(state, "nodes"@) {
        Some(JsonV::Object(nodes)) => match member(nodes, node_id) {
            Some(JsonV::Object(node)) => Some(node),
            _ => None,
        },
        _ => None,
    }
}

/// Names that the templating context keeps for itself.
pub open spec fn is_reserved_key(k: Seq<char>) -> bool {
    k == "payload"@ || k == "state"@ || k == "node"@ || k == "node_id"@ || k == "node_payload"@
}

/// `root` with each input member appended whose key is neither reserved nor present.
pub open spec fn add_inputs(root: Seq<(Seq<char>, JsonV)>, inputs: Seq<(Seq<char>, JsonV)>) -> Seq<
    (Seq<char>, JsonV),
>
    decreases inputs.len(),
{
    if inputs.len() == 0 {
        root
    } else {
        add_inputs(
            if is_reserved_key(inputs[0].0) || member(root, inputs[0].0) is Some {
                root
            } else {
                root.push(inputs[0])
            },
            inputs.drop_first(),
        )
    }
}

/// The templating context: payload, state, and with a node id the node's id, state and
/// payload, then the `state.input` members that are not taken.
pub open spec fn template_context(payload: JsonV, state: JsonV, node_id: Option<Seq<char>>) -> JsonV {
    let r0 = seq![("payload"@, payload), ("state"@, state)];
    let r1 = match node_id {
        Some(n) => {
            let a = put(r0, "node_id"@, JsonV::Str(n));
            match state_node(state, n) {
                Some(node) => {
                    let b = match member(node, "payload"@) {
                        Some(p) => put(a, "node_payload"@, p),
                        None => a,
                    };
                    put(b, "node"@, JsonV::Object(node))
                },
                None => a,
            }
        },
        None => r0,
    };
    match get_spec(state, "input"@) {
        Some(JsonV::Object(inp)) => JsonV::Object(add_inputs(r1, inp)),
        _ => JsonV::Object(r1),
    }
}

/// Whether `key` is one of the names the templating context keeps for itself.
pub fn is_reserved_handlebars_key(key: &str) -> (r: bool)
    ensures
        r == is_reserved_key(key@),
{
    crate::json::same_text(key, "payload") || crate::json::same_text(key, "state")
        || crate::json::same_text(key, "node") || crate::json::same_text(key, "node_id")
        || crate::json::same_text(key, "node_payload")
}

/// Builds the templating context of an invocation.
pub fn build_handlebars_context(inv: &AdaptiveCardInvocation) -> (r: Json)
    ensures
        r@ == template_context(inv.payload@, inv.state@, opt_text(inv.node_id)),
{
    let ghost sv = inv.state@;
    let mut root: Vec<(String, Json)> = Vec::new();
    root.push(("payload".to_string(), inv.payload.copy()));
    root.push(("state".to_string(), inv.state.copy()));
    proof {
        reveal_strlit("payload");
        reveal_strlit("state");
        crate::json::lemma_member_views_eq(root@, seq![("payload"@, inv.payload@), ("state"@, inv.state@)]);
    }
    match &inv.node_id {
        Some(n) => {
            root = put_member(root, "node_id".to_string(), Json::Str(n.clone()));
            let node: Option<&Json> = match inv.state.get("nodes") {
                Some(Json::Object(nodes)) => match member_ref(nodes, n.as_str()) {
                    Some(x) => if x.is_object() {
                        Some(x)
                    } else {
                        None
                    },
                    None => None,
                },
                _ => None,
            };
            match node {
                Some(nj) => {
                    match nj.get("payload") {
                        Some(p) => {
                            root = put_member(root, "node_payload".to_string(), p.copy());
                        },
                        None => {},
                    }
                    root = put_member(root, "node".to_string(), nj.copy());
                },
                None => {},
            }
            proof {
                reveal_strlit("node_id");
                reveal_strlit("node_payload");
                reveal_strlit("node");
                reveal_strlit("nodes");
            }
        },
        None => {},
    }
    let ghost r1 = member_views(root@);
    match inv.state.get("input") {
        Some(Json::Object(inp)) => {
            proof {
                lemma_member_views_index(inp@);
            }
            let ghost iv = member_views(inp@);
            let mut i: usize = 0;
            assert(iv.subrange(0, iv.len() as int) =~= iv);
            while i < inp.len()
                invariant
                    i <= inp@.len(),
                    iv == member_views(inp@),
                    iv.len() == inp@.len(),
                    forall|j: int|
                        0 <= j < inp@.len() ==> #[trigger] iv[j] == (inp@[j].0@, inp@[j].1@),
                    add_inputs(member_views(root@), iv.subrange(i as int, iv.len() as int))
                        == add_inputs(r1, iv),
                decreases inp.len() - i,
            {
                let ghost rest = iv.subrange(i as int, iv.len() as int);
                assert(rest.drop_first() =~= iv.subrange(i + 1, iv.len() as int));
                let key = inp[i].0.as_str();
                let taken = is_reserved_handlebars_key(key) || member_ref(&root, key).is_some();
                if !taken {
                    proof {
                        lemma_member_views_index(root@);
                    }
                    let ghost before = member_views(root@);
                    root.push((inp[i].0.clone(), inp[i].1.copy()));
                    proof {
                        crate::json::lemma_member_views_eq(root@, before.push(iv[i as int]));
                    }
                }
                i = i + 1;
            }
            assert(iv.subrange(i as int, iv.len() as int) =~= Seq::<(Seq<char>, JsonV)>::empty());
            Json::Object(root)
        },
        _ => Json::Object(root),
    }
}

/// The lower-case hexadecimal BLAKE3 digest of the UTF-8 encoding of `text`.
pub uninterp spec fn blake3_hex(text: Seq<char>) -> Seq<char>;

/// Relies on `blake3::hash` and `Hash::to_hex`: the digest of the text's UTF-8 bytes, as 64
/// lower-case hexadecimal digits.
#[verifier::external_body]
fn blake3_hex_of(text: &str) -> (r: String)
    ensures
        r@ == blake3_hex(text@),
        r@.len() == 64,
{
    blake3::hash(text.as_bytes()).to_hex().to_string()
}

/// The content hash of a document: `blake3:` and the digest of its compact JSON text.
pub open spec fn json_hash(v: JsonV) -> Seq<char> {
    "blake3:"@ + blake3_hex(json_text(v))
}

/// The content hash of a document.
pub fn hash_json(v: &Json) -> (r: String)
    ensures
        r@ == json_hash(v@),
        r@.len() == 71,
{
    let text = to_json_string(v);
    let hex = blake3_hex_of(text.as_str());
    let mut r = "blake3:".to_string();
    r.append(hex.as_str());
    proof {
        reveal_strlit("blake3:");
    }
    r
}

/// How the card document was found.
#[derive(Debug)]
pub struct AssetResolution {
    pub mode: String,
    pub resolved: Option<String>,
    pub hash: Option<String>,
}

/// A card document that the caller located and read, with how it was found.
#[derive(Debug)]
pub struct LoadedCard {
    pub card: Json,
    pub resolution: AssetResolution,
}

/// What rendering produced.
#[derive(Debug)]
pub struct RenderOutcome {
    pub card: Json,
    pub features: CardFeatureSummary,
    pub validation_issues: Vec<ValidationIssue>,
    pub asset_resolution: AssetResolution,
    pub binding_summary: BindingSummary,
}

/// The card after both passes: handlebars against the templating context, then bindings.
pub open spec fn rendered_spec(inv: &AdaptiveCardInvocation, card: JsonV) -> Option<JsonV> {
    rendered_with(inv, inv.state@, card)
}

/// The card after both passes, with `state` as the state document.
pub open spec fn rendered_with(inv: &AdaptiveCardInvocation, state: JsonV, card: JsonV) -> Option<
    JsonV,
> {
    match templated_spec(card, json_text(template_context(inv.payload@, state, opt_text(inv.node_id)))) {
        Some(c) => bind_spec(context_with(inv, state), c),
        None => None,
    }
}

/// The binding context of an invocation.
pub open spec fn context_of(inv: &AdaptiveCardInvocation) -> ContextV {
    context_with(inv, inv.state@)
}

/// The binding context of an invocation, with `state` as the state document.
pub open spec fn context_with(inv: &AdaptiveCardInvocation, state: JsonV) -> ContextV {
    ContextV {
        payload: inv.payload@,
        session: inv.session@,
        state,
        template_params: match inv.card_spec.template_params {
            Some(t) => t@,
            None => JsonV::Object(Seq::empty()),
        },
    }
}

/// The card document an invocation renders: the inline one, or the one the caller loaded.
pub open spec fn source_card(inv: &AdaptiveCardInvocation, loaded: Option<LoadedCard>) -> Option<JsonV> {
    match inv.card_source {
        CardSource::Inline => match inv.card_spec.inline_json {
            Some(c) => Some(c@),
            None => None,
        },
        CardSource::Asset => if inv.card_spec.asset_path is Some {
            match loaded {
                Some(l) => Some(l.card@),
                None => None,
            }
        } else {
            None
        },
        CardSource::Catalog => if inv.card_spec.catalog_name is Some {
            match loaded {
                Some(l) => Some(l.card@),
                None => None,
            }
        } else {
            None
        },
    }
}

fn resolve_card(inv: &AdaptiveCardInvocation, loaded: Option<LoadedCard>) -> (r: Result<
    (Json, AssetResolution),
    ComponentError,
>)
    ensures
        r matches Ok((c, res)) ==> source_card(inv, loaded) == Some(c@) && resolution_of(
            inv,
            loaded,
            res,
            c@,
        ),
        r matches Err(e) ==> source_card(inv, loaded) is None && (if spec_field_missing(inv) {
            e is InvalidInput
        } else {
            e is AssetNotFound
        }),
{
    match inv.card_source {
        CardSource::Inline => match &inv.card_spec.inline_json {
            Some(c) => {
                let hash = hash_json(c);
                proof {
                    reveal_strlit("inline");
                }
                Ok((c.copy(), AssetResolution { mode: "inline".to_string(), resolved: None, hash: Some(hash) }))
            },
            None => Err(ComponentError::InvalidInput("inline_json is required".to_string())),
        },
        CardSource::Asset => match &inv.card_spec.asset_path {
            Some(path) => match loaded {
                Some(l) => Ok((l.card, l.resolution)),
                None => Err(ComponentError::AssetNotFound(path.clone())),
            },
            None => Err(ComponentError::InvalidInput("asset_path is required".to_string())),
        },
        CardSource::Catalog => match &inv.card_spec.catalog_name {
            Some(name) => match loaded {
                Some(l) => Ok((l.card, l.resolution)),
                None => Err(ComponentError::AssetNotFound(name.clone())),
            },
            None => Err(ComponentError::InvalidInput("catalog_name is required".to_string())),
        },
    }
}

/// How the card was found: an inline card is recorded with its content hash, a loaded one with
/// the record its loader gave.
pub open spec fn resolution_of(
    inv: &AdaptiveCardInvocation,
    loaded: Option<LoadedCard>,
    res: AssetResolution,
    card: JsonV,
) -> bool {
    match inv.card_source {
        CardSource::Inline => res.mode@ == "inline"@ && res.resolved is None && (res.hash matches Some(
            h,
        ) && h@ == json_hash(card)),
        _ => loaded matches Some(l) && res == l.resolution,
    }
}

/// Whether the invocation lacks the spec field that its card source needs.
pub open spec fn spec_field_missing(inv: &AdaptiveCardInvocation) -> bool {
    match inv.card_source {
        CardSource::Inline => inv.card_spec.inline_json is None,
        CardSource::Asset => inv.card_spec.asset_path is None,
        CardSource::Catalog => inv.card_spec.catalog_name is None,
    }
}

/// What rendering gives, with `state` as the state document: invalid input for a missing spec
/// field, asset-not-found for an asset or catalog card that was not loaded, a binding error
/// when a pass fails, and otherwise the rendered card with its features and issues (a plain
/// card rendering as itself).
pub open spec fn render_outcome(
    inv: &AdaptiveCardInvocation,
    state: JsonV,
    loaded: Option<LoadedCard>,
    r: Result<RenderOutcome, ComponentError>,
) -> bool {
    match source_card(inv, loaded) {
        None => if spec_field_missing(inv) {
            r matches Err(e) && e is InvalidInput
        } else {
            r matches Err(e) && e is AssetNotFound
        },
        Some(c) => match rendered_with(inv, state, c) {
            None => r matches Err(e) && e is Binding,
            Some(card) => r matches Ok(out) && resolution_of(inv, loaded, out.asset_resolution, c)
                && out.binding_summary.missing_paths == 0 && out.card@ == card && issues_view(
                out.validation_issues@,
            ) == card_issues(card) && features_of(out.features, card) && (plain(c) ==> card == c),
        },
    }
}

/// Resolves the card, renders both passes, and analyzes and validates the result. An asset or
/// catalog card is the one the caller located and read (`loaded`).
pub fn render_card(inv: &AdaptiveCardInvocation, loaded: Option<LoadedCard>) -> (r: Result<
    RenderOutcome,
    ComponentError,
>)
    ensures
        render_outcome(inv, inv.state@, loaded, r),
{
    let mut summary = BindingSummary::new();
    let (card, asset_resolution) = resolve_card(inv, loaded)?;
    let context = build_handlebars_context(inv);
    let data = to_json_string(&context);
    let templated = render_handlebars_value(&card, data.as_str(), &mut summary)?;
    let ctx = BindingContext::from_invocation(inv);
    assert(ctx@ == context_of(inv));
    let bound = apply_bindings(&templated, &ctx, &mut summary)?;
    proof {
        if plain(card@) {
            lemma_plain_binds(ctx@, card@);
        }
    }
    let features = analyze_features(&bound);
    let validation_issues = validate_card(&bound);
    Ok(RenderOutcome { card: bound, features, validation_issues, asset_resolution, binding_summary: summary })
}

} // verus!
