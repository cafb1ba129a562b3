//! The structural validator: a read-only walk that reports issues, never fatal by itself.
use vstd::prelude::*;

use crate::json::{
    find_key, get_spec, lemma_key_index, lemma_member_views_index, lemma_views_index, member,
    member_views, same_text, views, Json, JsonV, Number, NumberV,
};
use crate::state_store::texts;
use crate::json_text::{decimal, write_decimal};
use crate::decimal::{decimal_gt, decimal_of, decimal_value, rational_gt, signed, EXP_LIMIT};
use crate::model::ValidationIssue;
use crate::text::{chars_of, matches_at};

verus! {

/// An issue as `(code, message, path)`.
pub type IssueV = (Seq<char>, Seq<char>, Seq<char>);

pub open spec fn issue_view(i: ValidationIssue) -> IssueV {
    (i.code@, i.message@, i.path@)
}

pub open spec fn issues_view(v: Seq<ValidationIssue>) -> Seq<IssueV> {
    v.map_values(|i: ValidationIssue| issue_view(i))
}

pub open spec fn starts_with(s: Seq<char>, p: Seq<char>) -> bool {
    p.len() <= s.len() && s.subrange(0, p.len() as int) == p
}

/// The `type` of a node, or empty.
pub open spec fn kind_of(m: Seq<(Seq<char>, JsonV)>) -> Seq<char> {
    match member(m, "type"@) {
        Some(JsonV::Str(k)) => k,
        _ => Seq::empty(),
    }
}

/// Whether `v` is a non-empty string.
pub open spec fn non_empty_str(v: Option<JsonV>) -> bool {
    match v {
        Some(JsonV::Str(s)) => s.len() > 0,
        _ => false,
    }
}

pub open spec fn one(path: Seq<char>, code: &str, message: &str) -> Seq<IssueV> {
    seq![(code@, message@, path)]
}

pub open spec fn when(c: bool, s: Seq<IssueV>) -> Seq<IssueV> {
    if c {
        s
    } else {
        Seq::empty()
    }
}

/// A choice that lacks a non-empty `title` or `value`.
pub open spec fn bad_choice(c: JsonV) -> bool {
    !non_empty_str(get_spec(c, "title"@)) || !non_empty_str(get_spec(c, "value"@))
}

/// A media source that lacks a non-empty `url`.
pub open spec fn bad_source(c: JsonV) -> bool {
    !non_empty_str(get_spec(c, "url"@))
}

/// The decimal value `(m, e)`, worth `m * 10^e`, of a number member.
pub open spec fn number_of(v: Option<JsonV>) -> Option<(int, int)> {
    match v {
        Some(JsonV::Number(n)) => decimal_value(n),
        _ => None,
    }
}

/// The rules of an action node.
pub open spec fn action_issues(m: Seq<(Seq<char>, JsonV)>, path: Seq<char>) -> Seq<IssueV> {
    let kind = kind_of(m);
    if kind == "Action.OpenUrl"@ {
        when(
            !non_empty_str(member(m, "url"@)),
            one(path, "missing-url", "Action.OpenUrl must include a url"),
        )
    } else if kind == "Action.Execute"@ {
        when(
            !(member(m, "verb"@) matches Some(JsonV::Str(_))),
            one(path, "missing-verb", "Action.Execute should include a verb"),
        ) + when(
            member(m, "data"@) matches Some(d) && !(d is Object) && !(d is Null),
            one(path, "invalid-data", "Action.Execute data should be an object when present"),
        )
    } else if kind == "Action.ShowCard"@ {
        when(
            member(m, "card"@) is None,
            one(path, "missing-card", "Action.ShowCard must include a card"),
        ) + when(
            member(m, "card"@) matches Some(c) && !(c is Object),
            one(path, "invalid-card", "Action.ShowCard card must be an object"),
        )
    } else if kind == "Action.ToggleVisibility"@ {
        if member(m, "targetElements"@) is None {
            one(
                path,
                "missing-target-elements",
                "Action.ToggleVisibility must include targetElements",
            )
        } else {
            match member(m, "targetElements"@) {
                Some(JsonV::Array(a)) => when(
                    a.len() == 0,
                    one(
                        path,
                        "empty-target-elements",
                        "Action.ToggleVisibility targetElements must not be empty",
                    ),
                ),
                _ => one(
                    path,
                    "invalid-target-elements",
                    "Action.ToggleVisibility targetElements must be an array",
                ),
            }
        }
    } else {
        Seq::empty()
    }
}

/// The rules that depend on the node's `type` alone.
pub open spec fn kind_issues(m: Seq<(Seq<char>, JsonV)>, path: Seq<char>) -> Seq<IssueV> {
    let kind = kind_of(m);
    if kind == "Input.ChoiceSet"@ {
        match member(m, "choices"@) {
            Some(JsonV::Array(a)) => if a.len() == 0 {
                one(path, "empty-choices", "Input.ChoiceSet must include at least one choice")
            } else {
                when(
                    exists|i: int| 0 <= i < a.len() && bad_choice(#[trigger] a[i]),
                    one(path, "invalid-choice", "Choices must include non-empty title and value"),
                )
            },
            Some(_) => one(path, "invalid-choices", "Input.ChoiceSet choices must be an array"),
            None => one(path, "missing-choices", "Input.ChoiceSet must include choices"),
        }
    } else if kind == "Input.Toggle"@ {
        when(
            !non_empty_str(member(m, "title"@)),
            one(path, "missing-title", "Input.Toggle should include a title"),
        )
    } else if kind == "Input.Number"@ {
        when(
            number_of(member(m, "min"@)) matches Some(lo) && number_of(member(m, "max"@)) matches Some(
                hi,
            ) && rational_gt(lo.0, lo.1, hi.0, hi.1),
            one(path, "invalid-range", "Input.Number min must be <= max"),
        )
    } else if kind == "ColumnSet"@ {
        match member(m, "columns"@) {
            Some(JsonV::Array(a)) => when(
                a.len() == 0,
                one(path, "empty-columns", "ColumnSet columns must not be empty"),
            ),
            Some(_) => one(path, "invalid-columns", "ColumnSet columns must be an array"),
            None => Seq::empty(),
        }
    } else if kind == "Media"@ {
        match member(m, "sources"@) {
            Some(JsonV::Array(a)) => if a.len() == 0 {
                one(path, "missing-sources", "Media must include at least one source")
            } else {
                when(
                    exists|i: int| 0 <= i < a.len() && bad_source(#[trigger] a[i]),
                    one(path, "invalid-source", "Media sources must include non-empty url"),
                )
            },
            Some(_) => one(path, "invalid-sources", "Media sources must be an array"),
            None => one(path, "missing-sources", "Media must include sources"),
        }
    } else {
        Seq::empty()
    }
}

/// The state of the walk: issues so far, and the input and action ids seen.
pub struct WalkV {
    pub issues: Seq<IssueV>,
    pub inputs: Seq<Seq<char>>,
    pub actions: Seq<Seq<char>>,
}

/// The checks of one object node, in order: input id rules, action rules, then type rules.
pub open spec fn node_spec(m: Seq<(Seq<char>, JsonV)>, path: Seq<char>, w: WalkV) -> WalkV {
    let kind = kind_of(m);
    let is_input = starts_with(kind, "Input."@);
    let is_action = starts_with(kind, "Action."@);
    let id = member(m, "id"@);
    let i1 = w.issues + when(
        is_input && id is None,
        one(path, "missing-id", "Inputs must include an id"),
    );
    let (i2, inputs) = match id {
        Some(JsonV::Str(s)) => if is_input {
            if w.inputs.contains(s) {
                (
                    i1 + one(path, "duplicate-id", "Input ids should be unique within the card"),
                    w.inputs,
                )
            } else {
                (i1, w.inputs.push(s))
            }
        } else {
            (i1, w.inputs)
        },
        _ => (i1, w.inputs),
    };
    let (i3, actions) = match id {
        Some(JsonV::Str(s)) => if is_action {
            if w.actions.contains(s) {
                (
                    i2 + one(
                        path,
                        "duplicate-action-id",
                        "Action ids should be unique within the card",
                    ),
                    w.actions,
                )
            } else {
                (i2, w.actions.push(s))
            }
        } else {
            (i2, w.actions)
        },
        _ => (i2, w.actions),
    };
    let i4 = if is_action {
        i3 + action_issues(m, path)
    } else {
        i3
    };
    WalkV { issues: i4 + kind_issues(m, path), inputs, actions }
}

/// Where a node's own issues point: its path, or `/` for the root.
pub open spec fn node_path(path: Seq<char>) -> Seq<char> {
    if path.len() == 0 {
        "/"@
    } else {
        path
    }
}

/// `path/key`.
pub open spec fn child_path(path: Seq<char>, key: Seq<char>) -> Seq<char> {
    path + seq!['/'] + key
}

/// The walk over `v` at `path`: an object's own checks, then its members in order; an array's
/// items in order.
pub open spec fn visit_spec(v: JsonV, path: Seq<char>, w: WalkV) -> WalkV
    decreases v,
{
    match v {
        JsonV::Object(m) => visit_members(m, path, node_spec(m, node_path(path), w)),
        JsonV::Array(items) => visit_items(items, path, w),
        _ => w,
    }
}

pub open spec fn visit_items(items: Seq<JsonV>, path: Seq<char>, w: WalkV) -> WalkV
    decreases items,
{
    if items.len() == 0 {
        w
    } else {
        visit_spec(
            items.last(),
            child_path(path, decimal((items.len() - 1) as nat)),
            visit_items(items.drop_last(), path, w),
        )
    }
}

pub open spec fn visit_members(m: Seq<(Seq<char>, JsonV)>, path: Seq<char>, w: WalkV) -> WalkV
    decreases m,
{
    if m.len() == 0 {
        w
    } else {
        visit_spec(m.last().1, child_path(path, m.last().0), visit_members(m.drop_last(), path, w))
    }
}

/// The issues of a card: the root checks, then the walk from the root with path "".
pub open spec fn card_issues(card: JsonV) -> Seq<IssueV> {
    match card {
        JsonV::Object(m) => {
            let root = when(
                !(member(m, "type"@) == Some(JsonV::Str("AdaptiveCard"@))),
                one("/type"@, "invalid-type", "Root type must be AdaptiveCard"),
            ) + when(
                member(m, "version"@) is None,
                one("/version"@, "missing-version", "AdaptiveCard must include a version"),
            ) + when(
                member(m, "body"@) matches Some(b) && !(b is Array),
                one("/body"@, "invalid-body", "body must be an array"),
            ) + when(
                member(m, "actions"@) matches Some(a) && !(a is Array),
                one("/actions"@, "invalid-actions", "actions must be an array"),
            );
            visit_spec(
                card,
                Seq::empty(),
                WalkV { issues: root, inputs: Seq::empty(), actions: Seq::empty() },
            ).issues
        },
        _ => one("/"@, "invalid-root", "Card must be a JSON object"),
    }
}

fn push_issue(out: &mut Vec<ValidationIssue>, path: &str, code: &str, message: &str)
    ensures
        issues_view(final(out)@) == issues_view(old(out)@) + one(path@, code, message),
{
    out.push(
        ValidationIssue { code: code.to_string(), message: message.to_string(), path: path.to_string() },
    );
    assert(issues_view(final(out)@) =~= issues_view(old(out)@) + one(path@, code, message));
}

/// The value of the first member named `key`.
pub(crate) fn member_ref<'a>(m: &'a Vec<(String, Json)>, key: &str) -> (r: Option<&'a Json>)
    ensures
        r matches Some(x) ==> member(member_views(m@), key@) == Some(x@),
        r is None ==> member(member_views(m@), key@) is None,
{
    proof {
        lemma_member_views_index(m@);
        lemma_key_index(member_views(m@), key@);
    }
    match find_key(m, key) {
        Some(i) => Some(&m[i].1),
        None => None,
    }
}

fn non_empty_str_exec(v: Option<&Json>) -> (r: bool)
    ensures
        r == non_empty_str(
            match v {
                Some(x) => Some(x@),
                None => None,
            },
        ),
{
    match v {
        Some(Json::Str(s)) => s.as_str().unicode_len() > 0,
        _ => false,
    }
}

fn kind_text(m: &Vec<(String, Json)>) -> (r: String)
    ensures
        r@ == kind_of(member_views(m@)),
{
    match member_ref(m, "type") {
        Some(Json::Str(k)) => k.clone(),
        _ => String::new(),
    }
}

pub(crate) fn starts_with_exec(s: &str, p: &str) -> (r: bool)
    ensures
        r == starts_with(s@, p@),
{
    let cs = chars_of(s);
    let ps = chars_of(p);
    matches_at(cs.as_slice(), 0, ps.as_slice())
}

fn number_of_exec(v: Option<&Json>) -> (r: Option<(bool, u128, i64)>)
    ensures
        r matches Some((neg, m, e)) ==> number_of(
            match v {
                Some(x) => Some(x@),
                None => None,
            },
        ) == Some((signed(neg, m), e as int)) && -3 * EXP_LIMIT <= e <= 3 * EXP_LIMIT,
        r is None ==> number_of(
            match v {
                Some(x) => Some(x@),
                None => None,
            },
        ) is None,
{
    match v {
        Some(Json::Number(n)) => decimal_of(n),
        _ => None,
    }
}

fn action_checks(m: &Vec<(String, Json)>, path: &str, out: &mut Vec<ValidationIssue>)
    ensures
        issues_view(final(out)@) == issues_view(old(out)@) + action_issues(member_views(m@), path@),
{
    let ghost mv = member_views(m@);
    let kind = kind_text(m);
    proof {
        reveal_strlit("Action.OpenUrl");
        reveal_strlit("Action.Execute");
        reveal_strlit("Action.ShowCard");
        reveal_strlit("Action.ToggleVisibility");
    }
    if same_text(kind.as_str(), "Action.OpenUrl") {
        if !non_empty_str_exec(member_ref(m, "url")) {
            push_issue(out, path, "missing-url", "Action.OpenUrl must include a url");
        } else {
            assert(issues_view(out@) + Seq::<IssueV>::empty() =~= issues_view(out@));
        }
    } else if same_text(kind.as_str(), "Action.Execute") {
        let ghost base = issues_view(out@);
        let verb = member_ref(m, "verb");
        let has_verb = match verb {
            Some(Json::Str(_)) => true,
            _ => false,
        };
        if !has_verb {
            push_issue(out, path, "missing-verb", "Action.Execute should include a verb");
        }
        let ghost mid = issues_view(out@);
        let bad_data = match member_ref(m, "data") {
            Some(d) => !d.is_object() && !d.is_null(),
            None => false,
        };
        if bad_data {
            push_issue(
                out,
                path,
                "invalid-data",
                "Action.Execute data should be an object when present",
            );
        }
        assert(issues_view(out@) =~= base + action_issues(mv, path@));
    } else if same_text(kind.as_str(), "Action.ShowCard") {
        let ghost base = issues_view(out@);
        let card = member_ref(m, "card");
        match card {
            None => {
                push_issue(out, path, "missing-card", "Action.ShowCard must include a card");
            },
            Some(c) => {
                if !c.is_object() {
                    push_issue(out, path, "invalid-card", "Action.ShowCard card must be an object");
                }
            },
        }
        assert(issues_view(out@) =~= base + action_issues(mv, path@));
    } else if same_text(kind.as_str(), "Action.ToggleVisibility") {
        let ghost base = issues_view(out@);
        match member_ref(m, "targetElements") {
            None => {
                push_issue(
                    out,
                    path,
                    "missing-target-elements",
                    "Action.ToggleVisibility must include targetElements",
                );
            },
            Some(Json::Array(a)) => {
                proof {
                    lemma_views_index(a@);
                }
                if a.len() == 0 {
                    push_issue(
                        out,
                        path,
                        "empty-target-elements",
                        "Action.ToggleVisibility targetElements must not be empty",
                    );
                }
            },
            Some(_) => {
                push_issue(
                    out,
                    path,
                    "invalid-target-elements",
                    "Action.ToggleVisibility targetElements must be an array",
                );
            },
        }
        assert(issues_view(out@) =~= base + action_issues(mv, path@));
    } else {
        assert(issues_view(out@) + Seq::<IssueV>::empty() =~= issues_view(out@));
    }
}

fn bad_choice_exec(c: &Json) -> (r: bool)
    ensures
        r == bad_choice(c@),
{
    let t = match c.get("title") {
        Some(x) => non_empty_str_exec(Some(x)),
        None => false,
    };
    let v = match c.get("value") {
        Some(x) => non_empty_str_exec(Some(x)),
        None => false,
    };
    !t || !v
}

fn bad_source_exec(c: &Json) -> (r: bool)
    ensures
        r == bad_source(c@),
{
    match c.get("url") {
        Some(x) => !non_empty_str_exec(Some(x)),
        None => true,
    }
}

/// Whether some item fails `bad_choice` (or `bad_source`, when `sources` is set).
fn any_bad(items: &Vec<Json>, sources: bool) -> (r: bool)
    ensures
        !sources ==> r == exists|i: int| 0 <= i < views(items@).len() && bad_choice(
            #[trigger] views(items@)[i],
        ),
        sources ==> r == exists|i: int| 0 <= i < views(items@).len() && bad_source(
            #[trigger] views(items@)[i],
        ),
{
    proof {
        lemma_views_index(items@);
    }
    let ghost iv = views(items@);
    let mut i: usize = 0;
    while i < items.len()
        invariant
            i <= items@.len(),
            iv == views(items@),
            iv.len() == items@.len(),
            forall|j: int| 0 <= j < items@.len() ==> #[trigger] iv[j] == items@[j]@,
            !sources ==> forall|j: int| 0 <= j < i ==> !bad_choice(#[trigger] iv[j]),
            sources ==> forall|j: int| 0 <= j < i ==> !bad_source(#[trigger] iv[j]),
        decreases items.len() - i,
    {
        let bad = if sources {
            bad_source_exec(&items[i])
        } else {
            bad_choice_exec(&items[i])
        };
        if bad {
            assert(iv[i as int] == items@[i as int]@);
            return true;
        }
        i = i + 1;
    }
    false
}

fn kind_checks(m: &Vec<(String, Json)>, path: &str, out: &mut Vec<ValidationIssue>)
    ensures
        issues_view(final(out)@) == issues_view(old(out)@) + kind_issues(member_views(m@), path@),
{
    let ghost mv = member_views(m@);
    let ghost base = issues_view(out@);
    let kind = kind_text(m);
    proof {
        reveal_strlit("Input.ChoiceSet");
        reveal_strlit("Input.Toggle");
        reveal_strlit("Input.Number");
        reveal_strlit("ColumnSet");
        reveal_strlit("Media");
    }
    if same_text(kind.as_str(), "Input.ChoiceSet") {
        match member_ref(m, "choices") {
            Some(Json::Array(a)) => {
                proof {
                    lemma_views_index(a@);
                }
                if a.len() == 0 {
                    push_issue(
                        out,
                        path,
                        "empty-choices",
                        "Input.ChoiceSet must include at least one choice",
                    );
                } else if any_bad(a, false) {
                    push_issue(
                        out,
                        path,
                        "invalid-choice",
                        "Choices must include non-empty title and value",
                    );
                }
            },
            Some(_) => {
                push_issue(out, path, "invalid-choices", "Input.ChoiceSet choices must be an array");
            },
            None => {
                push_issue(out, path, "missing-choices", "Input.ChoiceSet must include choices");
            },
        }
    } else if same_text(kind.as_str(), "Input.Toggle") {
        if !non_empty_str_exec(member_ref(m, "title")) {
            push_issue(out, path, "missing-title", "Input.Toggle should include a title");
        }
    } else if same_text(kind.as_str(), "Input.Number") {
        let lo = number_of_exec(member_ref(m, "min"));
        let hi = number_of_exec(member_ref(m, "max"));
        match (lo, hi) {
            (Some(a), Some(b)) => {
                if decimal_gt(a, b) {
                    push_issue(out, path, "invalid-range", "Input.Number min must be <= max");
                }
            },
            _ => {},
        }
    } else if same_text(kind.as_str(), "ColumnSet") {
        match member_ref(m, "columns") {
            Some(Json::Array(a)) => {
                proof {
                    lemma_views_index(a@);
                }
                if a.len() == 0 {
                    push_issue(out, path, "empty-columns", "ColumnSet columns must not be empty");
                }
            },
            Some(_) => {
                push_issue(out, path, "invalid-columns", "ColumnSet columns must be an array");
            },
            None => {},
        }
    } else if same_text(kind.as_str(), "Media") {
        match member_ref(m, "sources") {
            Some(Json::Array(a)) => {
                proof {
                    lemma_views_index(a@);
                }
                if a.len() == 0 {
                    push_issue(out, path, "missing-sources", "Media must include at least one source");
                } else if any_bad(a, true) {
                    push_issue(out, path, "invalid-source", "Media sources must include non-empty url");
                }
            },
            Some(_) => {
                push_issue(out, path, "invalid-sources", "Media sources must be an array");
            },
            None => {
                push_issue(out, path, "missing-sources", "Media must include sources");
            },
        }
    }
    assert(issues_view(out@) =~= base + kind_issues(mv, path@));
}

/// An `Input.ChoiceSet` without `choices` gets `missing-choices`; given a non-empty array of
/// valid choices it gets no issue from its type's rules at all.
pub proof fn lemma_choice_set_choices(
    m: Seq<(Seq<char>, JsonV)>,
    path: Seq<char>,
    choices: Seq<JsonV>,
)
    requires
        kind_of(m) == "Input.ChoiceSet"@,
    ensures
        member(m, "choices"@) is None ==> kind_issues(m, path) == one(
            path,
            "missing-choices",
            "Input.ChoiceSet must include choices",
        ),
        choices.len() > 0 && (forall|i: int| 0 <= i < choices.len() ==> !bad_choice(
            #[trigger] choices[i],
        )) ==> kind_issues(crate::json::put(m, "choices"@, JsonV::Array(choices)), path).len()
            == 0,
{
    reveal_strlit("choices");
    reveal_strlit("type");
    let m2 = crate::json::put(m, "choices"@, JsonV::Array(choices));
    crate::json::lemma_put(m, "choices"@, JsonV::Array(choices));
    assert("type"@ != "choices"@) by {
        assert("type"@.len() != "choices"@.len());
    }
    assert(member(m2, "type"@) == member(m, "type"@));
    assert(kind_of(m2) == kind_of(m));
}

pub open spec fn walk_view(issues: Seq<ValidationIssue>, inputs: Seq<String>, actions: Seq<String>) -> WalkV {
    WalkV { issues: issues_view(issues), inputs: texts(inputs), actions: texts(actions) }
}

fn contains_text(v: &Vec<String>, s: &str) -> (r: bool)
    ensures
        r == texts(v@).contains(s@),
{
    let mut i: usize = 0;
    while i < v.len()
        invariant
            i <= v@.len(),
            forall|j: int| 0 <= j < i ==> texts(v@)[j] != s@,
        decreases v.len() - i,
    {
        if same_text(v[i].as_str(), s) {
            assert(texts(v@)[i as int] == s@);
            return true;
        }
        i = i + 1;
    }
    false
}

fn push_text(v: &mut Vec<String>, s: &str)
    ensures
        texts(final(v)@) == texts(old(v)@).push(s@),
{
    v.push(s.to_string());
    assert(texts(final(v)@) =~= texts(old(v)@).push(s@));
}

fn node_checks(
    m: &Vec<(String, Json)>,
    path: &str,
    issues: &mut Vec<ValidationIssue>,
    inputs: &mut Vec<String>,
    actions: &mut Vec<String>,
)
    ensures
        walk_view(final(issues)@, final(inputs)@, final(actions)@) == node_spec(
            member_views(m@),
            path@,
            walk_view(old(issues)@, old(inputs)@, old(actions)@),
        ),
{
    let ghost mv = member_views(m@);
    let kind = kind_text(m);
    let is_input = starts_with_exec(kind.as_str(), "Input.");
    let is_action = starts_with_exec(kind.as_str(), "Action.");
    let id = member_ref(m, "id");
    let ghost i0 = issues_view(issues@);
    if is_input && id.is_none() {
        push_issue(issues, path, "missing-id", "Inputs must include an id");
    } else {
        assert(issues_view(issues@) =~= i0 + Seq::<IssueV>::empty());
    }
    match id {
        Some(Json::Str(s)) => {
            if is_input {
                if contains_text(inputs, s.as_str()) {
                    push_issue(
                        issues,
                        path,
                        "duplicate-id",
                        "Input ids should be unique within the card",
                    );
                } else {
                    push_text(inputs, s.as_str());
                }
            }
            if is_action {
                if contains_text(actions, s.as_str()) {
                    push_issue(
                        issues,
                        path,
                        "duplicate-action-id",
                        "Action ids should be unique within the card",
                    );
                } else {
                    push_text(actions, s.as_str());
                }
            }
        },
        _ => {},
    }
    if is_action {
        action_checks(m, path, issues);
    }
    kind_checks(m, path, issues);
}

fn child_path_exec(path: &str, key: &str) -> (r: String)
    ensures
        r@ == child_path(path@, key@),
{
    let mut s = path.to_string();
    crate::text::push_char(&mut s, '/');
    s.append(key);
    s
}

fn index_path(path: &str, i: usize) -> (r: String)
    ensures
        r@ == child_path(path@, decimal(i as nat)),
{
    let mut s = path.to_string();
    crate::text::push_char(&mut s, '/');
    write_decimal(&mut s, i as u64);
    s
}

fn visit(
    v: &Json,
    path: &str,
    issues: &mut Vec<ValidationIssue>,
    inputs: &mut Vec<String>,
    actions: &mut Vec<String>,
)
    ensures
        walk_view(final(issues)@, final(inputs)@, final(actions)@) == visit_spec(
            v@,
            path@,
            walk_view(old(issues)@, old(inputs)@, old(actions)@),
        ),
    decreases v,
{
    match v {
        Json::Object(members) => {
            proof {
                lemma_member_views_index(members@);
            }
            let ghost mv = member_views(members@);
            let own = if path.unicode_len() == 0 {
                "/"
            } else {
                path
            };
            proof {
                reveal_strlit("/");
                reveal_strlit("");
            }
            assert(own@ == node_path(path@));
            node_checks(members, own, issues, inputs, actions);
            let ghost w0 = walk_view(issues@, inputs@, actions@);
            let mut i: usize = 0;
            assert(mv.subrange(0, 0) =~= Seq::<(Seq<char>, JsonV)>::empty());
            while i < members.len()
                invariant
                    *v == Json::Object(*members),
                    i <= members@.len(),
                    mv == member_views(members@),
                    mv.len() == members@.len(),
                    forall|j: int|
                        0 <= j < members@.len() ==> #[trigger] mv[j] == (
                            members@[j].0@,
                            members@[j].1@,
                        ),
                    walk_view(issues@, inputs@, actions@) == visit_members(
                        mv.subrange(0, i as int),
                        path@,
                        w0,
                    ),
                decreases members.len() - i,
            {
                proof {
                    assert(decreases_to!(*v => v->Object_0));
                    assert(decreases_to!(*members => members@));
                    assert(decreases_to!(members@ => members@[i as int]));
                    assert(decreases_to!(members@[i as int] => members@[i as int].1));
                    assert(mv.subrange(0, i + 1).drop_last() =~= mv.subrange(0, i as int));
                }
                let cp = child_path_exec(path, members[i].0.as_str());
                visit(&members[i].1, cp.as_str(), issues, inputs, actions);
                i = i + 1;
            }
            assert(mv.subrange(0, i as int) =~= mv);
        },
        Json::Array(items) => {
            proof {
                lemma_views_index(items@);
            }
            let ghost iv = views(items@);
            let ghost w0 = walk_view(issues@, inputs@, actions@);
            let mut i: usize = 0;
            assert(iv.subrange(0, 0) =~= Seq::<JsonV>::empty());
            while i < items.len()
                invariant
                    *v == Json::Array(*items),
                    i <= items@.len(),
                    iv == views(items@),
                    iv.len() == items@.len(),
                    forall|j: int| 0 <= j < items@.len() ==> #[trigger] iv[j] == items@[j]@,
                    walk_view(issues@, inputs@, actions@) == visit_items(
                        iv.subrange(0, i as int),
                        path@,
                        w0,
                    ),
                decreases items.len() - i,
            {
                proof {
                    assert(decreases_to!(*v => v->Array_0));
                    assert(decreases_to!(*items => items@));
                    assert(decreases_to!(items@ => items@[i as int]));
                    assert(iv.subrange(0, i + 1).drop_last() =~= iv.subrange(0, i as int));
                }
                let cp = index_path(path, i);
                visit(&items[i], cp.as_str(), issues, inputs, actions);
                i = i + 1;
            }
            assert(iv.subrange(0, i as int) =~= iv);
        },
        _ => {},
    }
}

/// The structural issues of a card, in the order of `card_issues`.
pub fn validate_card(card: &Json) -> (r: Vec<ValidationIssue>)
    ensures
        issues_view(r@) == card_issues(card@),
{
    let mut issues: Vec<ValidationIssue> = Vec::new();
    proof {
        reveal_strlit("AdaptiveCard");
    }
    match card {
        Json::Object(m) => {
            let ghost mv = member_views(m@);
            assert(issues_view(issues@) =~= Seq::<IssueV>::empty());
            let is_card = match member_ref(m, "type") {
                Some(Json::Str(t)) => same_text(t.as_str(), "AdaptiveCard"),
                _ => false,
            };
            if !is_card {
                push_issue(&mut issues, "/type", "invalid-type", "Root type must be AdaptiveCard");
            }
            let ghost w1 = when(
                !(member(mv, "type"@) == Some(JsonV::Str("AdaptiveCard"@))),
                one("/type"@, "invalid-type", "Root type must be AdaptiveCard"),
            );
            assert(issues_view(issues@) =~= w1);
            if member_ref(m, "version").is_none() {
                push_issue(
                    &mut issues,
                    "/version",
                    "missing-version",
                    "AdaptiveCard must include a version",
                );
            }
            match member_ref(m, "body") {
                Some(b) => {
                    if !b.is_array() {
                        push_issue(&mut issues, "/body", "invalid-body", "body must be an array");
                    }
                },
                None => {},
            }
            match member_ref(m, "actions") {
                Some(a) => {
                    if !a.is_array() {
                        push_issue(
                            &mut issues,
                            "/actions",
                            "invalid-actions",
                            "actions must be an array",
                        );
                    }
                },
                None => {},
            }
            let ghost root = issues_view(issues@);
            proof {
                let w2 = when(
                    member(mv, "version"@) is None,
                    one("/version"@, "missing-version", "AdaptiveCard must include a version"),
                );
                let w3 = when(
                    member(mv, "body"@) matches Some(b) && !(b is Array),
                    one("/body"@, "invalid-body", "body must be an array"),
                );
                let w4 = when(
                    member(mv, "actions"@) matches Some(a) && !(a is Array),
                    one("/actions"@, "invalid-actions", "actions must be an array"),
                );
                assert(root =~= w1 + w2 + w3 + w4);
                reveal_strlit("");
            }
            let mut inputs: Vec<String> = Vec::new();
            let mut actions: Vec<String> = Vec::new();
            assert(texts(inputs@) =~= Seq::<Seq<char>>::empty());
            assert(texts(actions@) =~= Seq::<Seq<char>>::empty());
            assert(""@ =~= Seq::<char>::empty());
            let ghost w0 = walk_view(issues@, inputs@, actions@);
            assert(w0 == WalkV { issues: root, inputs: Seq::empty(), actions: Seq::empty() });
            visit(card, "", &mut issues, &mut inputs, &mut actions);
            assert(card@ == JsonV::Object(mv));
            assert(issues_view(issues@) == visit_spec(card@, Seq::empty(), w0).issues);
            issues
        },
        _ => {
            push_issue(&mut issues, "/", "invalid-root", "Card must be a JSON object");
            assert(issues_view(issues@) =~= card_issues(card@));
            issues
        },
    }
}

} // verus!
