//! The expression language of `${...}` regions: a literal or a binding reference, an equality
//! `a == b`, or a conditional `c ? a : b`.
use vstd::prelude::*;

use crate::binding::{resolve_spec, BindingContext, ContextV};
use crate::json::{
    lemma_member_views_index, lemma_views_index, member_views, views, Json, JsonV, Number,
};
use crate::json_read::{parse_json, parse_json_spec};
use crate::text::{chars_of, matches_at, occurs_at, string_of, trim, trim_bounds};

verus! {

/// Whether the scan of `s[0..i]` ends inside a string literal, and just after a backslash there.
pub open spec fn scan_state(s: Seq<char>, i: int) -> (bool, bool)
    decreases i,
{
    if i <= 0 || i > s.len() {
        (false, false)
    } else {
        let (ins, esc) = scan_state(s, i - 1);
        let c = s[i - 1];
        if ins {
            if esc {
                (true, false)
            } else if c == '\\' {
                (true, true)
            } else if c == '"' {
                (false, false)
            } else {
                (true, false)
            }
        } else if c == '"' {
            (true, false)
        } else {
            (false, false)
        }
    }
}

/// The first place at or after `from` where `pat` starts outside any string literal.
pub open spec fn first_top(s: Seq<char>, pat: Seq<char>, from: int) -> Option<int>
    decreases s.len() + 1 - from,
{
    if from < 0 || from + pat.len() > s.len() {
        None
    } else if occurs_at(s, pat, from) && !scan_state(s, from).0 {
        Some(from)
    } else {
        first_top(s, pat, from + 1)
    }
}

/// An operand: a JSON literal, or else a binding reference that must resolve.
#[verifier::opaque]
pub open spec fn operand_spec(ctx: ContextV, t: Seq<char>) -> Option<JsonV> {
    let u = trim(t);
    match parse_json_spec(u) {
        Some(v) => Some(v),
        None => resolve_spec(ctx, u),
    }
}

/// A condition: `a == b` at the first top-level `==`, or a single operand.
pub open spec fn condition_spec(ctx: ContextV, t: Seq<char>) -> Option<JsonV> {
    match first_top(t, "=="@, 0) {
        Some(k) => match (
            operand_spec(ctx, t.subrange(0, k)),
            operand_spec(ctx, t.subrange(k + 2, t.len() as int)),
        ) {
            (Some(a), Some(b)) => Some(JsonV::Bool(a == b)),
            _ => None,
        },
        None => operand_spec(ctx, t),
    }
}

/// Whether a condition value selects the first branch.
pub open spec fn truthy(v: JsonV) -> bool {
    match v {
        JsonV::Null => false,
        JsonV::Bool(b) => b,
        JsonV::Number(n) => !(n == crate::json::NumberV::PosInt(0)),
        JsonV::Str(s) => s.len() > 0,
        _ => true,
    }
}

/// The value of an expression: `c ? a : b` split at the first top-level `?` and the first
/// top-level `:` after it, or a condition.
pub open spec fn eval_spec(ctx: ContextV, e: Seq<char>) -> Option<JsonV> {
    match first_top(e, "?"@, 0) {
        Some(q) => match first_top(e, ":"@, q + 1) {
            Some(c) => match condition_spec(ctx, e.subrange(0, q)) {
                Some(v) => if truthy(v) {
                    operand_spec(ctx, e.subrange(q + 1, c))
                } else {
                    operand_spec(ctx, e.subrange(c + 1, e.len() as int))
                },
                None => None,
            },
            None => None,
        },
        None => condition_spec(ctx, e),
    }
}

/// Whether `a` and `b` are the same value.
pub fn json_eq(a: &Json, b: &Json) -> (r: bool)
    ensures
        r == (a@ == b@),
    decreases a,
{
    match (a, b) {
        (Json::Null, Json::Null) => true,
        (Json::Bool(x), Json::Bool(y)) => *x == *y,
        (Json::Number(x), Json::Number(y)) => match (x, y) {
            (Number::PosInt(p), Number::PosInt(q)) => *p == *q,
            (Number::NegInt(p), Number::NegInt(q)) => *p == *q,
            (Number::Float(p), Number::Float(q)) => *p == *q,
            _ => false,
        },
        (Json::Str(x), Json::Str(y)) => *x == *y,
        (Json::Array(xs), Json::Array(ys)) => {
            proof {
                lemma_views_index(xs@);
                lemma_views_index(ys@);
            }
            if xs.len() != ys.len() {
                return false;
            }
            let mut i: usize = 0;
            while i < xs.len()
                invariant
                    *a == Json::Array(*xs),
                    *b == Json::Array(*ys),
                    xs@.len() == ys@.len(),
                    i <= xs@.len(),
                    views(xs@).len() == xs@.len(),
                    views(ys@).len() == ys@.len(),
                    forall|j: int| 0 <= j < xs@.len() ==> #[trigger] views(xs@)[j] == xs@[j]@,
                    forall|j: int| 0 <= j < ys@.len() ==> #[trigger] views(ys@)[j] == ys@[j]@,
                    forall|j: int| 0 <= j < i ==> #[trigger] views(xs@)[j] == views(ys@)[j],
                decreases xs.len() - i,
            {
                proof {
                    assert(decreases_to!(*a => a->Array_0));
                    assert(decreases_to!(*xs => xs@));
                    assert(decreases_to!(xs@ => xs@[i as int]));
                }
                if !json_eq(&xs[i], &ys[i]) {
                    assert(views(xs@)[i as int] != views(ys@)[i as int]);
                    return false;
                }
                i = i + 1;
            }
            assert(views(xs@) =~= views(ys@));
            true
        },
        (Json::Object(xs), Json::Object(ys)) => {
            proof {
                lemma_member_views_index(xs@);
                lemma_member_views_index(ys@);
            }
            if xs.len() != ys.len() {
                return false;
            }
            let mut i: usize = 0;
            while i < xs.len()
                invariant
                    *a == Json::Object(*xs),
                    *b == Json::Object(*ys),
                    xs@.len() == ys@.len(),
                    i <= xs@.len(),
                    member_views(xs@).len() == xs@.len(),
                    member_views(ys@).len() == ys@.len(),
                    forall|j: int|
                        0 <= j < xs@.len() ==> #[trigger] member_views(xs@)[j] == (
                            xs@[j].0@,
                            xs@[j].1@,
                        ),
                    forall|j: int|
                        0 <= j < ys@.len() ==> #[trigger] member_views(ys@)[j] == (
                            ys@[j].0@,
                            ys@[j].1@,
                        ),
                    forall|j: int| 0 <= j < i ==> #[trigger] member_views(xs@)[j] == member_views(ys@)[j],
                decreases xs.len() - i,
            {
                proof {
                    assert(decreases_to!(*a => a->Object_0));
                    assert(decreases_to!(*xs => xs@));
                    assert(decreases_to!(xs@ => xs@[i as int]));
                    assert(decreases_to!(xs@[i as int] => xs@[i as int].1));
                }
                if xs[i].0 != ys[i].0 || !json_eq(&xs[i].1, &ys[i].1) {
                    assert(member_views(xs@)[i as int] != member_views(ys@)[i as int]);
                    return false;
                }
                i = i + 1;
            }
            assert(member_views(xs@) =~= member_views(ys@));
            true
        },
        _ => false,
    }
}

proof fn lemma_first_top(s: Seq<char>, pat: Seq<char>, from: int, found: Option<int>)
    requires
        0 <= from <= s.len(),
        pat.len() > 0,
        found matches Some(i) ==> from <= i < s.len() && occurs_at(s, pat, i) && !scan_state(s, i).0
            && forall|j: int| from <= j < i ==> !(occurs_at(s, pat, j) && !scan_state(s, j).0),
        found is None ==> forall|j: int|
            from <= j < s.len() ==> !(occurs_at(s, pat, j) && !scan_state(s, j).0),
    ensures
        first_top(s, pat, from) == found,
    decreases s.len() + 1 - from,
{
    if from + pat.len() <= s.len() {
        if !(occurs_at(s, pat, from) && !scan_state(s, from).0) {
            lemma_first_top(s, pat, from + 1, found);
        }
    }
}

/// The first place at or after `from` where `pat` starts outside any string literal.
pub fn find_top(cs: &[char], from: usize, pat: &[char]) -> (r: Option<usize>)
    requires
        from <= cs@.len(),
        pat@.len() > 0,
    ensures
        r matches Some(i) ==> first_top(cs@, pat@, from as int) == Some(i as int) && from <= i
            && i + pat@.len() <= cs@.len(),
        r is None ==> first_top(cs@, pat@, from as int) is None,
{
    let mut ins = false;
    let mut esc = false;
    let mut i: usize = 0;
    while i < cs.len()
        invariant
            i <= cs@.len(),
            from <= cs@.len(),
            pat@.len() > 0,
            (ins, esc) == scan_state(cs@, i as int),
            forall|j: int| from <= j < i ==> !(occurs_at(cs@, pat@, j) && !scan_state(cs@, j).0),
        decreases cs.len() - i,
    {
        if i >= from && !ins && matches_at(cs, i, pat) {
            proof {
                lemma_first_top(cs@, pat@, from as int, Some(i as int));
            }
            return Some(i);
        }
        let c = cs[i];
        if ins {
            if esc {
                esc = false;
            } else if c == '\\' {
                esc = true;
            } else if c == '"' {
                ins = false;
            }
        } else if c == '"' {
            ins = true;
            esc = false;
        }
        i = i + 1;
    }
    proof {
        lemma_first_top(cs@, pat@, from as int, None);
    }
    None
}

/// The value of an operand.
fn operand(ctx: &BindingContext, cs: &[char], from: usize, to: usize) -> (r: Option<Json>)
    requires
        from <= to <= cs@.len(),
    ensures
        r matches Some(v) ==> operand_spec(ctx@, cs@.subrange(from as int, to as int)) == Some(v@),
        r is None ==> operand_spec(ctx@, cs@.subrange(from as int, to as int)) is None,
{
    proof {
        reveal(operand_spec);
    }
    let (a, b) = trim_bounds(cs, from, to);
    let text = string_of(cs, a, b);
    match parse_json(text.as_str()) {
        Some(v) => Some(v),
        None => ctx.lookup(text.as_str()),
    }
}

fn condition(ctx: &BindingContext, cs: &[char]) -> (r: Option<Json>)
    ensures
        r matches Some(v) ==> condition_spec(ctx@, cs@) == Some(v@),
        r is None ==> condition_spec(ctx@, cs@) is None,
{
    let eq = chars_of("==");
    proof {
        reveal_strlit("==");
        assert(eq@.len() == 2);
        assert(cs@.subrange(0, cs@.len() as int) =~= cs@);
    }
    match find_top(cs, 0, eq.as_slice()) {
        Some(k) => {
            let n = cs.len();
            assert(k + 2 <= n);
            let a = operand(ctx, cs, 0, k);
            let b = operand(ctx, cs, k + 2, n);
            match (a, b) {
                (Some(x), Some(y)) => Some(Json::Bool(json_eq(&x, &y))),
                _ => None,
            }
        },
        None => operand(ctx, cs, 0, cs.len()),
    }
}

/// Evaluates an expression against the binding context.
pub fn eval_expression(ctx: &BindingContext, expr: &str) -> (r: Option<Json>)
    ensures
        r matches Some(v) ==> eval_spec(ctx@, expr@) == Some(v@),
        r is None ==> eval_spec(ctx@, expr@) is None,
{
    let cs = chars_of(expr);
    let qm = chars_of("?");
    let colon = chars_of(":");
    proof {
        reveal_strlit("?");
        reveal_strlit(":");
        assert(qm@.len() == 1);
        assert(colon@.len() == 1);
    }
    match find_top(cs.as_slice(), 0, qm.as_slice()) {
        Some(q) => match {
            let n = cs.len();
            assert(q + 1 <= n);
            find_top(cs.as_slice(), q + 1, colon.as_slice())
        } {
            Some(c) => {
                let head = string_of(cs.as_slice(), 0, q);
                let hc = chars_of(head.as_str());
                match condition(ctx, hc.as_slice()) {
                    Some(v) => {
                        if truthy_exec(&v) {
                            operand(ctx, cs.as_slice(), q + 1, c)
                        } else {
                            operand(ctx, cs.as_slice(), c + 1, cs.len())
                        }
                    },
                    None => None,
                }
            },
            None => None,
        },
        None => condition(ctx, cs.as_slice()),
    }
}

fn truthy_exec(v: &Json) -> (r: bool)
    ensures
        r == truthy(v@),
{
    match v {
        Json::Null => false,
        Json::Bool(b) => *b,
        Json::Number(n) => match n {
            Number::PosInt(k) => *k != 0,
            _ => true,
        },
        Json::Str(s) => s.as_str().unicode_len() > 0,
        _ => true,
    }
}

} // verus!
