//! The feature analyzer: which elements, actions and capabilities a card uses.
use vstd::prelude::*;

use crate::json::{
    find_key, get_spec, lemma_key_index, lemma_member_views_index, lemma_views_index, member,
    member_views, same_text, views, Json, JsonV,
};
use crate::model::CardFeatureSummary;
use crate::state_store::texts;
use crate::validation::starts_with;

verus! {

/// Lexicographic order on texts, by character.
pub open spec fn text_less(a: Seq<char>, b: Seq<char>) -> bool
    decreases a.len(),
{
    if b.len() == 0 {
        false
    } else if a.len() == 0 {
        true
    } else if a[0] != b[0] {
        a[0] < b[0]
    } else {
        text_less(a.drop_first(), b.drop_first())
    }
}

pub proof fn lemma_text_less_total(a: Seq<char>, b: Seq<char>)
    ensures
        a != b ==> (text_less(a, b) || text_less(b, a)),
        !(text_less(a, b) && text_less(b, a)),
        !text_less(a, a),
    decreases a.len(),
{
    if a.len() > 0 && b.len() > 0 && a[0] == b[0] {
        lemma_text_less_total(a.drop_first(), b.drop_first());
        if a != b {
            if a.drop_first() == b.drop_first() {
                assert(a =~= seq![a[0]] + a.drop_first());
                assert(b =~= seq![b[0]] + b.drop_first());
            }
        }
    } else if a.len() > 0 && a.len() == b.len() {
        lemma_text_less_total(a.drop_first(), a.drop_first());
    } else if a.len() == 0 && b.len() == 0 {
        assert(a =~= b);
    }
    if a.len() > 0 {
        lemma_text_less_total(a.drop_first(), a.drop_first());
    }
}

pub proof fn lemma_text_less_trans(a: Seq<char>, b: Seq<char>, c: Seq<char>)
    requires
        text_less(a, b),
        text_less(b, c),
    ensures
        text_less(a, c),
    decreases a.len(),
{
    if a.len() > 0 && b.len() > 0 && c.len() > 0 && a[0] == b[0] && b[0] == c[0] {
        lemma_text_less_trans(a.drop_first(), b.drop_first(), c.drop_first());
    }
}

/// Strictly increasing texts.
pub open spec fn sorted_texts(s: Seq<Seq<char>>) -> bool {
    forall|i: int, j: int| 0 <= i < j < s.len() ==> text_less(#[trigger] s[i], #[trigger] s[j])
}

fn text_less_exec(a: &str, b: &str) -> (r: bool)
    ensures
        r == text_less(a@, b@),
{
    let x = crate::text::chars_of(a);
    let y = crate::text::chars_of(b);
    let mut i: usize = 0;
    assert(x@.subrange(0, x@.len() as int) =~= x@);
    assert(y@.subrange(0, y@.len() as int) =~= y@);
    while i < x.len() && i < y.len() && x[i] == y[i]
        invariant
            i <= x@.len(),
            i <= y@.len(),
            text_less(a@, b@) == text_less(x@.subrange(i as int, x@.len() as int), y@.subrange(
                i as int,
                y@.len() as int,
            )),
            x@ == a@,
            y@ == b@,
        decreases x.len() - i,
    {
        let ghost xs = x@.subrange(i as int, x@.len() as int);
        let ghost ys = y@.subrange(i as int, y@.len() as int);
        assert(xs.drop_first() =~= x@.subrange(i + 1, x@.len() as int));
        assert(ys.drop_first() =~= y@.subrange(i + 1, y@.len() as int));
        i = i + 1;
    }
    if i == y.len() {
        false
    } else if i == x.len() {
        true
    } else {
        x[i] < y[i]
    }
}

/// Adds `t` to the strictly increasing `v`, unless it is there.
fn insert_sorted(v: &mut Vec<String>, t: &str)
    requires
        sorted_texts(texts(old(v)@)),
    ensures
        sorted_texts(texts(final(v)@)),
        texts(final(v)@).to_set() == texts(old(v)@).to_set().insert(t@),
{
    let ghost s = texts(v@);
    let mut p: usize = 0;
    while p < v.len() && text_less_exec(v[p].as_str(), t)
        invariant
            p <= v@.len(),
            s == texts(v@),
            sorted_texts(s),
            forall|j: int| 0 <= j < p ==> text_less(#[trigger] s[j], t@),
        decreases v.len() - p,
    {
        p = p + 1;
    }
    if p < v.len() && same_text(v[p].as_str(), t) {
        assert(s[p as int] == t@);
        assert(s.contains(t@));
        assert(s.to_set().insert(t@) =~= s.to_set());
        return;
    }
    proof {
        if p < s.len() {
            lemma_text_less_total(s[p as int], t@);
            assert(text_less(t@, s[p as int]));
            assert forall|j: int| p <= j < s.len() implies text_less(t@, #[trigger] s[j]) by {
                if j > p {
                    lemma_text_less_trans(t@, s[p as int], s[j]);
                }
            }
        }
    }
    v.insert(p, t.to_string());
    proof {
        let n = texts(v@);
        assert(n =~= s.insert(p as int, t@));
        assert forall|i: int, j: int| 0 <= i < j < n.len() implies text_less(
            #[trigger] n[i],
            #[trigger] n[j],
        ) by {
            if i < p && j > p {
                lemma_text_less_trans(n[i], t@, n[j]);
            }
        }
        assert forall|e: Seq<char>| n.to_set().contains(e) <==> s.to_set().insert(t@).contains(
            e,
        ) by {
            if n.contains(e) {
                let k = choose|k: int| 0 <= k < n.len() && n[k] == e;
                if k < p {
                    assert(s[k] == e);
                } else if k > p {
                    assert(s[k - 1] == e);
                }
            }
            if s.contains(e) {
                let k = choose|k: int| 0 <= k < s.len() && s[k] == e;
                if k < p {
                    assert(n[k] == e);
                } else {
                    assert(n[k + 1] == e);
                }
            }
            if e == t@ {
                assert(n[p as int] == e);
            }
        }
        assert(n.to_set() =~= s.to_set().insert(t@));
    }
}

/// `dst` with each member of `src` whose key it lacks appended: the first writer wins.
pub open spec fn add_absent(dst: Seq<(Seq<char>, JsonV)>, src: Seq<(Seq<char>, JsonV)>) -> Seq<
    (Seq<char>, JsonV),
>
    decreases src.len(),
{
    if src.len() == 0 {
        dst
    } else {
        add_absent(
            if member(dst, src[0].0) is None {
                dst.push(src[0])
            } else {
                dst
            },
            src.drop_first(),
        )
    }
}

/// The aggregate of capability requirements after meeting `new`.
pub open spec fn merge_requires_spec(target: JsonV, new: JsonV) -> JsonV {
    match target {
        JsonV::Object(dst) => match new {
            JsonV::Object(src) => JsonV::Object(add_absent(dst, src)),
            _ => target,
        },
        JsonV::Null => new,
        _ => target,
    }
}

/// What the analyzer has gathered.
pub struct FeatV {
    pub elements: Set<Seq<char>>,
    pub actions: Set<Seq<char>>,
    pub auth: bool,
    pub requires: JsonV,
}

/// What one object node adds.
pub open spec fn feat_node(m: Seq<(Seq<char>, JsonV)>, acc: FeatV) -> FeatV {
    let (elements, actions) = match member(m, "type"@) {
        Some(JsonV::Str(k)) => if starts_with(k, "Action."@) {
            (acc.elements, acc.actions.insert(k))
        } else {
            (acc.elements.insert(k), acc.actions)
        },
        _ => (acc.elements, acc.actions),
    };
    FeatV {
        elements,
        actions,
        auth: acc.auth || member(m, "authentication"@) is Some,
        requires: match member(m, "requires"@) {
            Some(r) => merge_requires_spec(acc.requires, r),
            None => acc.requires,
        },
    }
}

/// The depth-first walk: a node, then its members in order; an array's items in order.
pub open spec fn feat_spec(v: JsonV, acc: FeatV) -> FeatV
    decreases v,
{
    match v {
        JsonV::Object(m) => feat_members(m, feat_node(m, acc)),
        JsonV::Array(items) => feat_items(items, acc),
        _ => acc,
    }
}

pub open spec fn feat_items(items: Seq<JsonV>, acc: FeatV) -> FeatV
    decreases items,
{
    if items.len() == 0 {
        acc
    } else {
        feat_spec(items.last(), feat_items(items.drop_last(), acc))
    }
}

pub open spec fn feat_members(m: Seq<(Seq<char>, JsonV)>, acc: FeatV) -> FeatV
    decreases m,
{
    if m.len() == 0 {
        acc
    } else {
        feat_spec(m.last().1, feat_members(m.drop_last(), acc))
    }
}

pub open spec fn card_features(card: JsonV) -> FeatV {
    feat_spec(
        card,
        FeatV { elements: Set::empty(), actions: Set::empty(), auth: false, requires: JsonV::Null },
    )
}

fn add_absent_exec(dst: Vec<(String, Json)>, src: &Vec<(String, Json)>) -> (r: Vec<(String, Json)>)
    ensures
        member_views(r@) == add_absent(member_views(dst@), member_views(src@)),
{
    proof {
        lemma_member_views_index(src@);
    }
    let ghost sv = member_views(src@);
    let mut out = dst;
    let mut i: usize = 0;
    assert(sv.subrange(0, sv.len() as int) =~= sv);
    while i < src.len()
        invariant
            i <= src@.len(),
            sv == member_views(src@),
            sv.len() == src@.len(),
            forall|j: int|
                0 <= j < src@.len() ==> #[trigger] sv[j] == (src@[j].0@, src@[j].1@),
            add_absent(member_views(out@), sv.subrange(i as int, sv.len() as int)) == add_absent(
                member_views(dst@),
                sv,
            ),
        decreases src.len() - i,
    {
        let ghost rest = sv.subrange(i as int, sv.len() as int);
        assert(rest.drop_first() =~= sv.subrange(i + 1, sv.len() as int));
        proof {
            lemma_member_views_index(out@);
            lemma_key_index(member_views(out@), sv[i as int].0);
        }
        if find_key(&out, src[i].0.as_str()).is_none() {
            let ghost before = member_views(out@);
            out.push((src[i].0.clone(), src[i].1.copy()));
            proof {
                crate::json::lemma_member_views_eq(out@, before.push(sv[i as int]));
            }
        }
        i = i + 1;
    }
    assert(sv.subrange(i as int, sv.len() as int) =~= Seq::<(Seq<char>, JsonV)>::empty());
    out
}

fn merge_requires(target: Json, new: &Json) -> (r: Json)
    ensures
        r@ == merge_requires_spec(target@, new@),
{
    match target {
        Json::Object(dst) => match new {
            Json::Object(src) => Json::Object(add_absent_exec(dst, src)),
            _ => Json::Object(dst),
        },
        Json::Null => new.copy(),
        other => other,
    }
}

pub open spec fn feat_view(
    elements: Seq<String>,
    actions: Seq<String>,
    auth: bool,
    req: Json,
) -> FeatV {
    FeatV {
        elements: texts(elements).to_set(),
        actions: texts(actions).to_set(),
        auth,
        requires: req@,
    }
}

fn walk(
    v: &Json,
    elements: &mut Vec<String>,
    actions: &mut Vec<String>,
    auth: &mut bool,
    req: &mut Json,
)
    requires
        sorted_texts(texts(old(elements)@)),
        sorted_texts(texts(old(actions)@)),
    ensures
        sorted_texts(texts(final(elements)@)),
        sorted_texts(texts(final(actions)@)),
        feat_view(final(elements)@, final(actions)@, *final(auth), *final(req)) == feat_spec(
            v@,
            feat_view(old(elements)@, old(actions)@, *old(auth), *old(req)),
        ),
    decreases v,
{
    match v {
        Json::Object(members) => {
            proof {
                lemma_member_views_index(members@);
            }
            let ghost mv = member_views(members@);
            match crate::validation::member_ref(members, "type") {
                Some(Json::Str(k)) => {
                    let is_action = crate::validation::starts_with_exec(k.as_str(), "Action.");
                    if is_action {
                        insert_sorted(actions, k.as_str());
                    } else {
                        insert_sorted(elements, k.as_str());
                    }
                },
                _ => {},
            }
            if crate::validation::member_ref(members, "authentication").is_some() {
                *auth = true;
            }
            match crate::validation::member_ref(members, "requires") {
                Some(r) => {
                    let t = req.copy();
                    *req = merge_requires(t, r);
                },
                None => {},
            }
            let ghost w0 = feat_view(elements@, actions@, *auth, *req);
            let mut i: usize = 0;
            assert(mv.subrange(0, 0) =~= Seq::<(Seq<char>, JsonV)>::empty());
            while i < members.len()
                invariant
                    *v == Json::Object(*members),
                    i <= members@.len(),
                    mv == member_views(members@),
                    mv.len() == members@.len(),
                    forall|j: int|
                        0 <= j < members@.len() ==> #[trigger] mv[j] == (
                            members@[j].0@,
                            members@[j].1@,
                        ),
                    sorted_texts(texts(elements@)),
                    sorted_texts(texts(actions@)),
                    feat_view(elements@, actions@, *auth, *req) == feat_members(
                        mv.subrange(0, i as int),
                        w0,
                    ),
                decreases members.len() - i,
            {
                proof {
                    assert(decreases_to!(*v => v->Object_0));
                    assert(decreases_to!(*members => members@));
                    assert(decreases_to!(members@ => members@[i as int]));
                    assert(decreases_to!(members@[i as int] => members@[i as int].1));
                    assert(mv.subrange(0, i + 1).drop_last() =~= mv.subrange(0, i as int));
                }
                walk(&members[i].1, elements, actions, auth, req);
                i = i + 1;
            }
            assert(mv.subrange(0, i as int) =~= mv);
        },
        Json::Array(items) => {
            proof {
                lemma_views_index(items@);
            }
            let ghost iv = views(items@);
            let ghost w0 = feat_view(elements@, actions@, *auth, *req);
            let mut i: usize = 0;
            assert(iv.subrange(0, 0) =~= Seq::<JsonV>::empty());
            while i < items.len()
                invariant
                    *v == Json::Array(*items),
                    i <= items@.len(),
                    iv == views(items@),
                    iv.len() == items@.len(),
                    forall|j: int| 0 <= j < items@.len() ==> #[trigger] iv[j] == items@[j]@,
                    sorted_texts(texts(elements@)),
                    sorted_texts(texts(actions@)),
                    feat_view(elements@, actions@, *auth, *req) == feat_items(
                        iv.subrange(0, i as int),
                        w0,
                    ),
                decreases items.len() - i,
            {
                proof {
                    assert(decreases_to!(*v => v->Array_0));
                    assert(decreases_to!(*items => items@));
                    assert(decreases_to!(items@ => items@[i as int]));
                    assert(iv.subrange(0, i + 1).drop_last() =~= iv.subrange(0, i as int));
                }
                walk(&items[i], elements, actions, auth, req);
                i = i + 1;
            }
            assert(iv.subrange(0, i as int) =~= iv);
        },
        _ => {},
    }
}

/// Whether `r` is the feature summary of `card`: its version, the sorted element and action
/// types used, the three feature flags, authentication use and the merged requirements.
pub open spec fn features_of(r: CardFeatureSummary, card: JsonV) -> bool {
    let f = card_features(card);
    &&& opt_text_view(r.version) == as_str_of(get_spec(card, "version"@))
    &&& sorted_texts(texts(r.used_elements@))
    &&& texts(r.used_elements@).to_set() == f.elements
    &&& sorted_texts(texts(r.used_actions@))
    &&& texts(r.used_actions@).to_set() == f.actions
    &&& r.uses_show_card == f.actions.contains("Action.ShowCard"@)
    &&& r.uses_toggle_visibility == f.actions.contains("Action.ToggleVisibility"@)
    &&& r.uses_media == f.elements.contains("Media"@)
    &&& r.uses_auth == f.auth
    &&& r.requires_features@ == f.requires
}

/// The feature summary of a card.
pub fn analyze_features(card: &Json) -> (r: CardFeatureSummary)
    ensures
        features_of(r, card@),
{
    let version = match card.get("version") {
        Some(Json::Str(s)) => Some(s.clone()),
        _ => None,
    };
    let mut elements: Vec<String> = Vec::new();
    let mut actions: Vec<String> = Vec::new();
    let mut auth = false;
    let mut req = Json::Null;
    assert(texts(elements@) =~= Seq::<Seq<char>>::empty());
    assert(texts(actions@) =~= Seq::<Seq<char>>::empty());
    assert(texts(elements@).to_set() =~= Set::<Seq<char>>::empty());
    assert(texts(actions@).to_set() =~= Set::<Seq<char>>::empty());
    walk(card, &mut elements, &mut actions, &mut auth, &mut req);
    let uses_show_card = contains_sorted(&actions, "Action.ShowCard");
    let uses_toggle_visibility = contains_sorted(&actions, "Action.ToggleVisibility");
    let uses_media = contains_sorted(&elements, "Media");
    CardFeatureSummary {
        version,
        used_elements: elements,
        used_actions: actions,
        uses_show_card,
        uses_toggle_visibility,
        uses_media,
        uses_auth: auth,
        requires_features: req,
    }
}

pub open spec fn opt_text_view(s: Option<String>) -> Option<Seq<char>> {
    match s {
        Some(t) => Some(t@),
        None => None,
    }
}

pub open spec fn as_str_of(v: Option<JsonV>) -> Option<Seq<char>> {
    match v {
        Some(JsonV::Str(s)) => Some(s),
        _ => None,
    }
}

fn contains_sorted(v: &Vec<String>, t: &str) -> (r: bool)
    ensures
        r == texts(v@).to_set().contains(t@),
{
    let mut i: usize = 0;
    while i < v.len()
        invariant
            i <= v@.len(),
            forall|j: int| 0 <= j < i ==> texts(v@)[j] != t@,
        decreases v.len() - i,
    {
        if same_text(v[i].as_str(), t) {
            assert(texts(v@)[i as int] == t@);
            assert(texts(v@).contains(t@));
            return true;
        }
        i = i + 1;
    }
    false
}

} // verus!
