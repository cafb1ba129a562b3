//! The read-only binding context over payload, session, state and template parameters.
use vstd::prelude::*;

use crate::json::{
    lemma_key_index, lemma_member_views_index, lemma_views_index, member, member_views,
    Json, JsonV, find_key,
};
use crate::json_read::{
    all_digits, digits_value, is_digit, lemma_digits_value_step, parse_json, parse_json_spec,
};
use crate::model::AdaptiveCardInvocation;
use crate::state_store::{split_on, split_path, texts};
use crate::text::{chars_of, find_first, first_at, occurs_at, string_of, trim, trim_bounds};

verus! {

/// The array position that a path segment names, as `str::parse::<usize>` reads it.
pub open spec fn index_of(s: Seq<char>) -> Option<nat> {
    let body = if s.len() > 0 && s[0] == '+' {
        s.drop_first()
    } else {
        s
    };
    if body.len() > 0 && all_digits(body) && digits_value(body) <= usize::MAX {
        Some(digits_value(body))
    } else {
        None
    }
}

/// What `parts` reach from `v`: a key in an object, a position in an array.
pub open spec fn lookup_in_spec(v: JsonV, parts: Seq<Seq<char>>) -> Option<JsonV>
    decreases parts.len(),
{
    if parts.len() == 0 {
        Some(v)
    } else {
        match v {
            JsonV::Object(m) => match member(m, parts[0]) {
                Some(c) => lookup_in_spec(c, parts.drop_first()),
                None => None,
            },
            JsonV::Array(items) => match index_of(parts[0]) {
                Some(k) => if k < items.len() {
                    lookup_in_spec(items[k as int], parts.drop_first())
                } else {
                    None
                },
                None => None,
            },
            _ => None,
        }
    }
}

/// After `Set(p, x)` on a document, the binding traversal of the segments `p` reaches `x`,
/// whatever stood on the way before (non-objects on the way are replaced by objects).
pub proof fn lemma_set_then_lookup(v: JsonV, p: Seq<Seq<char>>, x: JsonV)
    requires
        p.len() >= 1,
    ensures
        lookup_in_spec(crate::state_store::set_spec(v, p, x), p) == Some(x),
    decreases p.len(),
{
    let m = crate::json::members_of(v);
    if p.len() == 1 {
        crate::json::lemma_put(m, p[0], x);
        assert(lookup_in_spec(x, p.drop_first()) == Some(x));
    } else {
        let child = match member(m, p[0]) {
            Some(c) => c,
            None => JsonV::Object(Seq::empty()),
        };
        lemma_set_then_lookup(child, p.drop_first(), x);
        crate::json::lemma_put(m, p[0], crate::state_store::set_spec(child, p.drop_first(), x));
    }
}

proof fn lemma_split_dotless(s: Seq<char>)
    requires
        forall|i: int| 0 <= i < s.len() ==> #[trigger] s[i] != '.',
    ensures
        split_on(s, '.') == seq![s],
    decreases s.len(),
{
    if s.len() > 0 {
        let init = s.drop_last();
        assert forall|i: int| 0 <= i < init.len() implies #[trigger] init[i] != '.' by {
            assert(init[i] == s[i]);
        }
        lemma_split_dotless(init);
        assert(s.last() != '.');
        assert(init.push(s.last()) =~= s);
        assert(seq![init].update(0, init.push(s.last())) =~= seq![s]);
    } else {
        assert(s =~= Seq::<char>::empty());
    }
}

proof fn lemma_split_prefix(t: Seq<char>)
    ensures
        split_on("state."@ + t, '.') == seq!["state"@] + split_on(t, '.'),
    decreases t.len(),
{
    reveal_strlit("state.");
    reveal_strlit("state");
    let pre = "state."@;
    if t.len() == 0 {
        assert(pre + t =~= pre);
        assert(pre.drop_last() =~= "state"@);
        let s5 = "state"@;
        lemma_split_dotless(s5);
        assert(split_on(t, '.') =~= seq![Seq::<char>::empty()]);
        assert(split_on(pre, '.') =~= seq![s5, Seq::<char>::empty()]);
    } else {
        lemma_split_prefix(t.drop_last());
        assert((pre + t).drop_last() =~= pre + t.drop_last());
        assert((pre + t).last() == t.last());
        crate::state_store::lemma_split_nonempty(t.drop_last(), '.');
        let a = split_on(t.drop_last(), '.');
        if t.last() == '.' {
            assert(seq!["state"@] + a.push(Seq::empty()) =~= (seq!["state"@] + a).push(Seq::empty()));
        } else {
            let b = seq!["state"@] + a;
            assert(b.update(b.len() - 1, b.last().push(t.last())) =~= seq!["state"@] + a.update(
                a.len() - 1,
                a.last().push(t.last()),
            ));
        }
    }
}

proof fn lemma_unbracket_id(s: Seq<char>)
    requires
        forall|i: int| 0 <= i < s.len() ==> #[trigger] s[i] != '[' && s[i] != ']',
    ensures
        unbracket(s) == s,
    decreases s.len(),
{
    if s.len() > 0 {
        let init = s.drop_last();
        assert forall|i: int| 0 <= i < init.len() implies #[trigger] init[i] != '[' && init[i] != ']' by {
            assert(init[i] == s[i]);
        }
        lemma_unbracket_id(init);
        assert(init.push(s.last()) =~= s);
    }
}

proof fn lemma_collapse_id(s: Seq<char>)
    requires
        forall|i: int| 0 <= i < s.len() - 1 ==> !(#[trigger] s[i] == '.' && s[i + 1] == '.'),
    ensures
        collapse_dots(s) == s,
    decreases s.len(),
{
    if s.len() > 0 {
        let t = s.drop_first();
        assert forall|i: int| 0 <= i < t.len() - 1 implies !(#[trigger] t[i] == '.' && t[i + 1]
            == '.') by {
            assert(t[i] == s[i + 1] && t[i + 1] == s[i + 2]);
        }
        lemma_collapse_id(t);
        assert(seq![s[0]] + t =~= s);
    }
}

/// A path with no brackets, no `..`, and no dot at either end is already normalized.
proof fn lemma_normalize_id(s: Seq<char>)
    requires
        s.len() > 0,
        s[0] != '.',
        s.last() != '.',
        forall|i: int| 0 <= i < s.len() ==> #[trigger] s[i] != '[' && s[i] != ']',
        forall|i: int| 0 <= i < s.len() - 1 ==> !(#[trigger] s[i] == '.' && s[i + 1] == '.'),
    ensures
        normalize_spec(s) == s,
{
    lemma_unbracket_id(s);
    lemma_collapse_id(s);
    assert(lead_dots(s) == 0);
    assert(s.subrange(0, s.len() as int) =~= s);
    assert(trail_dots(s) == 0);
}

/// `Set(p, x)` on the state document, then the binding `state.p` resolves to `x`, for a dotted
/// path `p` of non-empty segments without `||` (which opens a default), brackets (which index
/// arrays) or trailing whitespace (which is trimmed).
pub proof fn lemma_set_then_resolve(ctx: ContextV, p: Seq<char>, x: JsonV)
    requires
        !crate::text::contains(p, "||"@),
        forall|i: int| 0 <= i < p.len() ==> #[trigger] p[i] != '[' && p[i] != ']',
        p.len() > 0,
        p[0] != '.',
        p.last() != '.',
        !crate::text::is_ws(p.last()),
        forall|i: int| 0 <= i < p.len() - 1 ==> !(#[trigger] p[i] == '.' && p[i + 1] == '.'),
    ensures
        resolve_spec(
            ContextV { state: crate::state_store::set_spec(ctx.state, split_on(p, '.'), x), ..ctx },
            "state."@ + p,
        ) == Some(x),
{
    reveal(resolve_spec);
    reveal_strlit("state.");
    reveal_strlit("state");
    reveal_strlit("payload");
    reveal_strlit("session");
    reveal_strlit("||");
    let raw = "state."@ + p;
    if first_at(raw, "||"@, 0) is Some {
        crate::render::lemma_first_at_contains(raw, "||"@);
        let k = choose|k: int| crate::text::occurs_at(raw, "||"@, k);
        assert(raw.subrange(k, k + 2)[0] == raw[k]);
        assert(raw.subrange(k, k + 2)[1] == raw[k + 1]);
        if k >= 6 {
            assert(p.subrange(k - 6, k - 4) =~= "||"@);
            assert(crate::text::occurs_at(p, "||"@, k - 6));
        }
    }
    crate::text::lemma_lead_ws(raw);
    crate::text::lemma_trail_ws(raw);
    assert(raw.last() == p.last());
    assert(crate::text::trim_start(raw) =~= raw);
    assert(trim(raw) =~= raw);
    assert forall|i: int| 0 <= i < raw.len() implies #[trigger] raw[i] != '[' && raw[i] != ']' by {
        if i >= 6 {
            assert(raw[i] == p[i - 6]);
        }
    }
    assert forall|i: int| 0 <= i < raw.len() - 1 implies !(#[trigger] raw[i] == '.' && raw[i + 1]
        == '.') by {
        if i >= 6 {
            assert(raw[i] == p[i - 6] && raw[i + 1] == p[i - 5]);
        } else if i == 5 {
            assert(raw[i + 1] == p[0]);
        }
    }
    lemma_normalize_id(raw);
    lemma_split_prefix(p);
    crate::state_store::lemma_split_nonempty(p, '.');
    let segs = split_on(raw, '.');
    assert(segs[0] == "state"@);
    assert(segs.drop_first() =~= split_on(p, '.'));
    assert("state"@ != "payload"@);
    assert("state"@ != "session"@) by {
        assert("state"@[1] != "session"@[1]);
    }
    lemma_set_then_lookup(ctx.state, split_on(p, '.'), x);
}

/// `s` with `[` read as `.` and `]` dropped.
pub open spec fn unbracket(s: Seq<char>) -> Seq<char>
    decreases s.len(),
{
    if s.len() == 0 {
        s
    } else {
        let init = unbracket(s.drop_last());
        if s.last() == '[' {
            init.push('.')
        } else if s.last() == ']' {
            init
        } else {
            init.push(s.last())
        }
    }
}

/// `s` with each `..` replaced by `.`, scanning from the left, as `str::replace` does.
pub open spec fn collapse_dots(s: Seq<char>) -> Seq<char>
    decreases s.len(),
{
    if s.len() == 0 {
        s
    } else if s.len() >= 2 && s[0] == '.' && s[1] == '.' {
        seq!['.'] + collapse_dots(s.subrange(2, s.len() as int))
    } else {
        seq![s[0]] + collapse_dots(s.drop_first())
    }
}

pub open spec fn lead_dots(s: Seq<char>) -> nat
    decreases s.len(),
{
    if s.len() > 0 && s[0] == '.' {
        1 + lead_dots(s.drop_first())
    } else {
        0
    }
}

pub open spec fn trail_dots(s: Seq<char>) -> nat
    decreases s.len(),
{
    if s.len() > 0 && s.last() == '.' {
        1 + trail_dots(s.drop_last())
    } else {
        0
    }
}

/// `s` without the dots it starts and ends with.
pub open spec fn trim_dots(s: Seq<char>) -> Seq<char> {
    let t = s.subrange(lead_dots(s) as int, s.len() as int);
    t.subrange(0, t.len() - trail_dots(t))
}

/// A path with bracket indices turned into dot segments.
pub open spec fn normalize_spec(s: Seq<char>) -> Seq<char> {
    trim_dots(collapse_dots(unbracket(s)))
}

/// The path part of a binding reference: what precedes the first `||`, trimmed.
pub open spec fn binding_path(raw: Seq<char>) -> Seq<char> {
    match first_at(raw, "||"@, 0) {
        Some(p) => trim(raw.subrange(0, p)),
        None => trim(raw),
    }
}

/// The default of a binding reference: what follows the first `||`, trimmed, read as JSON or
/// else taken as a string; none when it is empty.
pub open spec fn binding_default(raw: Seq<char>) -> Option<JsonV> {
    match first_at(raw, "||"@, 0) {
        Some(p) => {
            let d = trim(raw.subrange(p + 2, raw.len() as int));
            if d.len() == 0 {
                None
            } else {
                match parse_json_spec(d) {
                    Some(v) => Some(v),
                    None => Some(JsonV::Str(d)),
                }
            }
        },
        None => None,
    }
}

/// The mathematical content of a binding context.
pub struct ContextV {
    pub payload: JsonV,
    pub session: JsonV,
    pub state: JsonV,
    pub template_params: JsonV,
}

/// What a path finds before defaults apply, with bracket indices read as segments: within the
/// root its first segment names, or else in payload, session, state and template parameters in
/// that order.
pub open spec fn find_spec(ctx: ContextV, path: Seq<char>) -> Option<JsonV> {
    let segs = split_on(normalize_spec(path), '.');
    let first = segs[0];
    let rest = segs.drop_first();
    if first == "payload"@ {
        lookup_in_spec(ctx.payload, rest)
    } else if first == "session"@ {
        lookup_in_spec(ctx.session, rest)
    } else if first == "state"@ {
        lookup_in_spec(ctx.state, rest)
    } else if first == "params"@ || first == "template"@ {
        lookup_in_spec(ctx.template_params, rest)
    } else {
        let parts = split_on(normalize_spec(path), '.');
        match lookup_in_spec(ctx.payload, parts) {
            Some(v) => Some(v),
            None => match lookup_in_spec(ctx.session, parts) {
                Some(v) => Some(v),
                None => match lookup_in_spec(ctx.state, parts) {
                    Some(v) => Some(v),
                    None => lookup_in_spec(ctx.template_params, parts),
                },
            },
        }
    }
}

/// What a binding reference resolves to: a found non-null value; else the default, where the
/// path found nothing or null; else what was found (possibly an explicit null).
#[verifier::opaque]
pub open spec fn resolve_spec(ctx: ContextV, raw: Seq<char>) -> Option<JsonV> {
    let found = find_spec(ctx, binding_path(raw));
    let default = binding_default(raw);
    match found {
        Some(v) => if !(v is Null) {
            Some(v)
        } else {
            match default {
                Some(d) => Some(d),
                None => found,
            }
        },
        None => match default {
            Some(d) => Some(d),
            None => None,
        },
    }
}

/// The array position that `s` names.
pub fn index_of_exec(s: &str) -> (r: Option<usize>)
    ensures
        r matches Some(k) ==> index_of(s@) == Some(k as nat),
        r is None ==> index_of(s@) is None,
{
    let cs = chars_of(s);
    let start: usize = if cs.len() > 0 && cs[0] == '+' {
        1
    } else {
        0
    };
    let ghost body = cs@.subrange(start as int, cs@.len() as int);
    proof {
        if start == 1 {
            assert(body =~= s@.drop_first());
        } else {
            assert(body =~= s@);
        }
    }
    if start >= cs.len() {
        return None;
    }
    let mut acc: usize = 0;
    let mut k = start;
    while k < cs.len()
        invariant
            start <= k <= cs@.len(),
            start < cs@.len(),
            body == cs@.subrange(start as int, cs@.len() as int),
            body == (if s@.len() > 0 && s@[0] == '+' {
                s@.drop_first()
            } else {
                s@
            }),
            all_digits(cs@.subrange(start as int, k as int)),
            acc as nat == digits_value(cs@.subrange(start as int, k as int)),
        decreases cs.len() - k,
    {
        let c = cs[k];
        proof {
            lemma_digits_value_step(body, k - start);
            assert(body.subrange(0, k - start) =~= cs@.subrange(start as int, k as int));
            assert(body.subrange(0, k - start + 1) =~= cs@.subrange(start as int, k + 1));
        }
        assert(body[k - start] == c);
        if !('0' <= c && c <= '9') {
            assert(!is_digit(body[k - start]));
            assert(!all_digits(body));
            return None;
        }
        let dig: usize = (c as u32 - 48) as usize;
        if acc > (usize::MAX - dig) / 10 {
            proof {
                assert(acc * 10 + dig > usize::MAX) by (nonlinear_arith)
                    requires
                        acc > (usize::MAX - dig) / 10,
                        dig <= 9,
                ;
                if all_digits(body) {
                    lemma_digits_grow(body, k - start + 1);
                    assert(digits_value(body) > usize::MAX);
                }
            }
            return None;
        }
        proof {
            assert(acc * 10 + dig <= usize::MAX) by (nonlinear_arith)
                requires
                    acc <= (usize::MAX - dig) / 10,
                    dig <= 9,
            ;
        }
        acc = acc * 10 + dig;
        assert(all_digits(cs@.subrange(start as int, k + 1)));
        k = k + 1;
    }
    assert(cs@.subrange(start as int, k as int) =~= body);
    Some(acc)
}

/// A run of digits is worth at least any of its prefixes.
pub proof fn lemma_digits_grow(t: Seq<char>, n: int)
    requires
        0 <= n <= t.len(),
        all_digits(t),
    ensures
        digits_value(t) >= digits_value(t.subrange(0, n)),
    decreases t.len() - n,
{
    if n < t.len() {
        lemma_digits_grow(t, n + 1);
        lemma_digits_value_step(t, n);
        let v = digits_value(t.subrange(0, n));
        let d = (t[n] as int - 48) as nat;
        assert(v * 10 + d >= v) by (nonlinear_arith)
            requires
                v >= 0,
                d >= 0,
        ;
    } else {
        assert(t.subrange(0, n) =~= t);
    }
}

/// What `parts[i..]` reach from `v`.
pub fn lookup_in(v: &Json, parts: &Vec<String>, i: usize) -> (r: Option<Json>)
    requires
        i <= parts@.len(),
    ensures
        r matches Some(x) ==> lookup_in_spec(v@, texts(parts@).subrange(i as int, parts@.len() as int))
            == Some(x@),
        r is None ==> lookup_in_spec(v@, texts(parts@).subrange(i as int, parts@.len() as int))
            is None,
    decreases parts.len() - i,
{
    let ghost p = texts(parts@).subrange(i as int, parts@.len() as int);
    if i == parts.len() {
        return Some(v.copy());
    }
    assert(p[0] == parts@[i as int]@);
    assert(p.drop_first() =~= texts(parts@).subrange(i + 1, parts@.len() as int));
    match v {
        Json::Object(members) => {
            proof {
                lemma_member_views_index(members@);
                lemma_key_index(member_views(members@), p[0]);
            }
            match find_key(members, parts[i].as_str()) {
                Some(j) => lookup_in(&members[j].1, parts, i + 1),
                None => None,
            }
        },
        Json::Array(items) => {
            proof {
                lemma_views_index(items@);
            }
            match index_of_exec(parts[i].as_str()) {
                Some(k) => {
                    if k < items.len() {
                        lookup_in(&items[k], parts, i + 1)
                    } else {
                        None
                    }
                },
                None => None,
            }
        },
        _ => None,
    }
}

proof fn lemma_lead_dots(s: Seq<char>)
    ensures
        lead_dots(s) <= s.len(),
        forall|i: int| 0 <= i < lead_dots(s) ==> #[trigger] s[i] == '.',
        lead_dots(s) < s.len() ==> s[lead_dots(s) as int] != '.',
    decreases s.len(),
{
    if s.len() > 0 && s[0] == '.' {
        lemma_lead_dots(s.drop_first());
        assert forall|i: int| 0 <= i < lead_dots(s) implies #[trigger] s[i] == '.' by {
            if i > 0 {
                assert(s[i] == s.drop_first()[i - 1]);
            }
        }
    }
}

proof fn lemma_trail_dots(s: Seq<char>)
    ensures
        trail_dots(s) <= s.len(),
        forall|i: int| s.len() - trail_dots(s) <= i < s.len() ==> #[trigger] s[i] == '.',
        trail_dots(s) < s.len() ==> s[s.len() - trail_dots(s) - 1] != '.',
    decreases s.len(),
{
    if s.len() > 0 && s.last() == '.' {
        lemma_trail_dots(s.drop_last());
        assert forall|i: int| s.len() - trail_dots(s) <= i < s.len() implies #[trigger] s[i]
            == '.' by {
            if i < s.len() - 1 {
                assert(s[i] == s.drop_last()[i]);
            }
        }
    }
}

/// `path` with bracket indices turned into dot segments: `a[0].b` reads as `a.0.b`.
#[verifier::rlimit(60)]
pub fn normalize_path(path: &str) -> (r: String)
    ensures
        r@ == normalize_spec(path@),
{
    let cs = chars_of(path);
    let mut u: Vec<char> = Vec::new();
    let mut i: usize = 0;
    while i < cs.len()
        invariant
            cs@ == path@,
            i <= cs@.len(),
            u@ == unbracket(cs@.subrange(0, i as int)),
        decreases cs.len() - i,
    {
        assert(cs@.subrange(0, i + 1).drop_last() =~= cs@.subrange(0, i as int));
        if cs[i] == '[' {
            u.push('.');
        } else if cs[i] != ']' {
            u.push(cs[i]);
        }
        i = i + 1;
    }
    assert(cs@.subrange(0, cs@.len() as int) =~= cs@);
    let mut c: Vec<char> = Vec::new();
    let mut k: usize = 0;
    assert(u@.subrange(0, u@.len() as int) =~= u@);
    while k < u.len()
        invariant
            k <= u@.len(),
            collapse_dots(u@) == c@ + collapse_dots(u@.subrange(k as int, u@.len() as int)),
        decreases u.len() - k,
    {
        let ghost rest = u@.subrange(k as int, u@.len() as int);
        if u.len() - k >= 2 && u[k] == '.' && u[k + 1] == '.' {
            assert(rest.subrange(2, rest.len() as int) =~= u@.subrange(k + 2, u@.len() as int));
            c.push('.');
            assert(c@ + collapse_dots(u@.subrange(k + 2, u@.len() as int)) =~= (c@.drop_last() + (
            seq!['.'] + collapse_dots(rest.subrange(2, rest.len() as int)))));
            k = k + 2;
        } else {
            assert(rest.drop_first() =~= u@.subrange(k + 1, u@.len() as int));
            c.push(u[k]);
            assert(c@ + collapse_dots(u@.subrange(k + 1, u@.len() as int)) =~= (c@.drop_last() + (
            seq![rest[0]] + collapse_dots(rest.drop_first()))));
            k = k + 1;
        }
    }
    assert(u@.subrange(k as int, u@.len() as int) =~= Seq::<char>::empty());
    assert(c@ + Seq::<char>::empty() =~= c@);
    let ghost s = c@;
    let mut a: usize = 0;
    while a < c.len() && c[a] == '.'
        invariant
            a <= c@.len(),
            forall|j: int| 0 <= j < a ==> #[trigger] c@[j] == '.',
        decreases c.len() - a,
    {
        a = a + 1;
    }
    proof {
        lemma_lead_dots(s);
        let n = lead_dots(s);
        if (n as int) < a {
            assert(s[n as int] == '.');
        } else if (n as int) > a {
            assert(s[a as int] == '.');
        }
    }
    let mut b: usize = c.len();
    while b > a && c[b - 1] == '.'
        invariant
            a <= b <= c@.len(),
            forall|j: int| b <= j < c@.len() ==> #[trigger] c@[j] == '.',
        decreases b,
    {
        b = b - 1;
    }
    proof {
        let t = s.subrange(a as int, s.len() as int);
        lemma_trail_dots(t);
        let n = trail_dots(t);
        if (n as int) < c@.len() - b {
            assert(t[t.len() - n - 1] == c@[c@.len() - n - 1]);
        } else if (n as int) > c@.len() - b {
            assert(t[b - 1 - a] == c@[b - 1]);
        }
        assert(c@.subrange(a as int, b as int) =~= t.subrange(0, t.len() - trail_dots(t)));
    }
    string_of(c.as_slice(), a, b)
}

/// Splits a binding reference into its path and its default.
pub fn parse_binding_path(raw: &str) -> (r: (String, Option<Json>))
    ensures
        r.0@ == binding_path(raw@),
        r.1 matches Some(d) ==> binding_default(raw@) == Some(d@),
        r.1 is None ==> binding_default(raw@) is None,
{
    let cs = chars_of(raw);
    let bars = chars_of("||");
    proof {
        reveal_strlit("||");
        assert(bars@.len() == 2);
    }
    match find_first(cs.as_slice(), 0, bars.as_slice()) {
        Some(p) => {
            assert(occurs_at(cs@, bars@, p as int));
            let n = cs.len();
            assert(p + 2 <= n);
            let (a, b) = trim_bounds(cs.as_slice(), 0, p);
            let path = string_of(cs.as_slice(), a, b);
            let (c, d) = trim_bounds(cs.as_slice(), p + 2, n);
            if c == d {
                return (path, None);
            }
            let text = string_of(cs.as_slice(), c, d);
            match parse_json(text.as_str()) {
                Some(v) => (path, Some(v)),
                None => (path, Some(Json::Str(text))),
            }
        },
        None => {
            let (a, b) = trim_bounds(cs.as_slice(), 0, cs.len());
            assert(cs@.subrange(0, cs@.len() as int) =~= cs@);
            (string_of(cs.as_slice(), a, b), None)
        },
    }
}

/// A read-only view over the payload, session, state and template-parameter documents.
#[derive(Debug)]
pub struct BindingContext {
    pub payload: Json,
    pub session: Json,
    pub state: Json,
    pub template_params: Json,
}

impl View for BindingContext {
    type V = ContextV;

    open spec fn view(&self) -> ContextV {
        ContextV {
            payload: self.payload@,
            session: self.session@,
            state: self.state@,
            template_params: self.template_params@,
        }
    }
}

impl BindingContext {
    /// The context of an invocation; template parameters default to an empty object.
    pub fn from_invocation(inv: &AdaptiveCardInvocation) -> (r: BindingContext)
        ensures
            r@.payload == inv.payload@,
            r@.session == inv.session@,
            r@.state == inv.state@,
            r@.template_params == match inv.card_spec.template_params {
                Some(t) => t@,
                None => JsonV::Object(Seq::empty()),
            },
    {
        let template_params = match &inv.card_spec.template_params {
            Some(t) => t.copy(),
            None => {
                let e: Vec<(String, Json)> = Vec::new();
                assert(member_views(e@) =~= Seq::empty());
                Json::Object(e)
            },
        };
        BindingContext {
            payload: inv.payload.copy(),
            session: inv.session.copy(),
            state: inv.state.copy(),
            template_params,
        }
    }

    /// What a path finds, before defaults apply.
    fn find(&self, path: &str) -> (r: Option<Json>)
        ensures
            r matches Some(v) ==> find_spec(self@, path@) == Some(v@),
            r is None ==> find_spec(self@, path@) is None,
    {
        let normalized = normalize_path(path);
        let segs = split_path(normalized.as_str());
        proof {
            reveal_strlit("payload");
            reveal_strlit("session");
            reveal_strlit("state");
            reveal_strlit("params");
            reveal_strlit("template");
            assert(texts(segs@)[0] == segs@[0]@);
            assert(texts(segs@).subrange(1, segs@.len() as int) =~= texts(segs@).drop_first());
        }
        let first = segs[0].as_str();
        if crate::json::same_text(first, "payload") {
            lookup_in(&self.payload, &segs, 1)
        } else if crate::json::same_text(first, "session") {
            lookup_in(&self.session, &segs, 1)
        } else if crate::json::same_text(first, "state") {
            lookup_in(&self.state, &segs, 1)
        } else if crate::json::same_text(first, "params") || crate::json::same_text(
            first,
            "template",
        ) {
            lookup_in(&self.template_params, &segs, 1)
        } else {
            assert(texts(segs@).subrange(0, segs@.len() as int) =~= texts(segs@));
            match lookup_in(&self.payload, &segs, 0) {
                Some(v) => Some(v),
                None => match lookup_in(&self.session, &segs, 0) {
                    Some(v) => Some(v),
                    None => match lookup_in(&self.state, &segs, 0) {
                        Some(v) => Some(v),
                        None => lookup_in(&self.template_params, &segs, 0),
                    },
                },
            }
        }
    }

    /// Resolves a binding reference `path||default`.
    pub fn lookup(&self, raw: &str) -> (r: Option<Json>)
        ensures
            r matches Some(v) ==> resolve_spec(self@, raw@) == Some(v@),
            r is None ==> resolve_spec(self@, raw@) is None,
    {
        proof {
            reveal(resolve_spec);
        }
        let (path, default) = parse_binding_path(raw);
        let found = self.find(path.as_str());
        match found {
            Some(v) => {
                if !v.is_null() {
                    Some(v)
                } else {
                    match default {
                        Some(d) => Some(d),
                        None => Some(v),
                    }
                }
            },
            None => default,
        }
    }
}

} // verus!
