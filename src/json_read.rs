//! Reading JSON text into the engine's values.
use vstd::prelude::*;

use crate::json::{
    lemma_member_views_eq, lemma_member_views_index, lemma_views_eq, lemma_views_index, member_views,
    views, Json, JsonV, Number, NumberV,
};
use crate::text::{chars_of, matches_at, push_char, string_of};

verus! {

pub open spec fn is_json_ws(c: char) -> bool {
    c == ' ' || c == '\t' || c == '\n' || c == '\r'
}

pub open spec fn is_digit(c: char) -> bool {
    '0' <= c && c <= '9'
}

/// The first position at or after `i` that holds no JSON whitespace.
pub open spec fn skip_ws(s: Seq<char>, i: int) -> int
    decreases s.len() - i,
{
    if 0 <= i < s.len() && is_json_ws(s[i]) {
        skip_ws(s, i + 1)
    } else {
        i
    }
}

/// The first position at or after `i` that holds no digit.
pub open spec fn digits_end(s: Seq<char>, i: int) -> int
    decreases s.len() - i,
{
    if 0 <= i < s.len() && is_digit(s[i]) {
        digits_end(s, i + 1)
    } else {
        i
    }
}

pub proof fn lemma_skip_ws(s: Seq<char>, i: int)
    requires
        0 <= i <= s.len(),
    ensures
        i <= skip_ws(s, i) <= s.len(),
    decreases s.len() - i,
{
    if i < s.len() && is_json_ws(s[i]) {
        lemma_skip_ws(s, i + 1);
    }
}

pub proof fn lemma_digits_end(s: Seq<char>, i: int)
    requires
        0 <= i <= s.len(),
    ensures
        i <= digits_end(s, i) <= s.len(),
        forall|k: int| i <= k < digits_end(s, i) ==> is_digit(#[trigger] s[k]),
    decreases s.len() - i,
{
    if i < s.len() && is_digit(s[i]) {
        lemma_digits_end(s, i + 1);
    }
}

/// Where a JSON number that starts at `i` ends: an optional minus, an integer part without
/// leading zeros, an optional fraction and an optional exponent.
pub open spec fn number_end(s: Seq<char>, i: int) -> Option<int> {
    let a = if 0 <= i < s.len() && s[i] == '-' {
        i + 1
    } else {
        i
    };
    let b = if 0 <= a < s.len() && s[a] == '0' {
        a + 1
    } else if 0 <= a < s.len() && is_digit(s[a]) {
        digits_end(s, a + 1)
    } else {
        -1
    };
    let c = if b < 0 {
        -1
    } else if b < s.len() && s[b] == '.' {
        if digits_end(s, b + 1) == b + 1 {
            -1
        } else {
            digits_end(s, b + 1)
        }
    } else {
        b
    };
    let d0 = if c >= 0 && c < s.len() && (s[c] == 'e' || s[c] == 'E') {
        if c + 1 < s.len() && (s[c + 1] == '+' || s[c + 1] == '-') {
            c + 2
        } else {
            c + 1
        }
    } else {
        c
    };
    let d = if d0 == c {
        c
    } else if digits_end(s, d0) == d0 {
        -1
    } else {
        digits_end(s, d0)
    };
    if d < 0 {
        None
    } else {
        Some(d)
    }
}

/// The value of a run of decimal digits.
pub open spec fn digits_value(s: Seq<char>) -> nat
    decreases s.len(),
{
    if s.len() == 0 {
        0
    } else {
        digits_value(s.drop_last()) * 10 + ((s.last() as int - 48) as nat)
    }
}

pub open spec fn all_digits(s: Seq<char>) -> bool {
    forall|k: int| 0 <= k < s.len() ==> is_digit(#[trigger] s[k])
}

/// The number that `text` (a JSON number) stands for: an integer when it has no fraction and
/// no exponent and fits, its text otherwise.
pub open spec fn number_of(text: Seq<char>) -> NumberV {
    if text.len() > 0 && all_digits(text) && digits_value(text) <= u64::MAX {
        NumberV::PosInt(digits_value(text) as u64)
    } else if text.len() > 1 && text[0] == '-' && all_digits(text.drop_first()) && 0 < digits_value(
        text.drop_first(),
    ) <= 0x8000_0000_0000_0000 {
        NumberV::NegInt((0 - digits_value(text.drop_first())) as i64)
    } else {
        NumberV::Float(text)
    }
}

pub open spec fn hex_value(c: char) -> int {
    if '0' <= c && c <= '9' {
        c as int - 48
    } else if 'a' <= c && c <= 'f' {
        c as int - 87
    } else if 'A' <= c && c <= 'F' {
        c as int - 55
    } else {
        -1
    }
}

/// The code unit of the four hexadecimal digits at `i`, if they are there.
pub open spec fn hex4(s: Seq<char>, i: int) -> int {
    if 0 <= i && i + 4 <= s.len() && hex_value(s[i]) >= 0 && hex_value(s[i + 1]) >= 0
        && hex_value(s[i + 2]) >= 0 && hex_value(s[i + 3]) >= 0 {
        ((hex_value(s[i]) * 16 + hex_value(s[i + 1])) * 16 + hex_value(s[i + 2])) * 16
            + hex_value(s[i + 3])
    } else {
        -1
    }
}

/// The character of scalar value `code`.
pub open spec fn char_of(code: int) -> char {
    (code as u32) as char
}

/// The character of the escape sequence that starts at `i` (at its backslash), and where it ends.
pub open spec fn escape_at(s: Seq<char>, i: int) -> Option<(char, int)> {
    if !(0 <= i && i + 1 < s.len()) {
        None
    } else {
        let e = s[i + 1];
        if e == '"' {
            Some(('"', i + 2))
        } else if e == '\\' {
            Some(('\\', i + 2))
        } else if e == '/' {
            Some(('/', i + 2))
        } else if e == 'b' {
            Some(('\x08', i + 2))
        } else if e == 'f' {
            Some(('\x0C', i + 2))
        } else if e == 'n' {
            Some(('\n', i + 2))
        } else if e == 'r' {
            Some(('\r', i + 2))
        } else if e == 't' {
            Some(('\t', i + 2))
        } else if e == 'u' {
            let u = hex4(s, i + 2);
            if u < 0 || (0xDC00 <= u && u <= 0xDFFF) {
                None
            } else if 0xD800 <= u && u <= 0xDBFF {
                let l = if i + 7 < s.len() && s[i + 6] == '\\' && s[i + 7] == 'u' {
                    hex4(s, i + 8)
                } else {
                    -1
                };
                if 0xDC00 <= l && l <= 0xDFFF {
                    Some((char_of(0x10000 + (u - 0xD800) * 0x400 + (l - 0xDC00)), i + 12))
                } else {
                    None
                }
            } else {
                Some((char_of(u), i + 6))
            }
        } else {
            None
        }
    }
}

/// The characters of the string whose body starts at `i`, and the position after its closing
/// quote. Control characters must be escaped.
pub open spec fn string_at(s: Seq<char>, i: int) -> Option<(Seq<char>, int)>
    decreases s.len() - i,
{
    if !(0 <= i < s.len()) {
        None
    } else if s[i] == '"' {
        Some((Seq::empty(), i + 1))
    } else if s[i] == '\\' {
        match escape_at(s, i) {
            Some((c, j)) => if j > i {
                match string_at(s, j) {
                    Some((rest, k)) => Some((seq![c] + rest, k)),
                    None => None,
                }
            } else {
                None
            },
            None => None,
        }
    } else if (s[i] as u32) < 0x20 {
        None
    } else {
        match string_at(s, i + 1) {
            Some((rest, k)) => Some((seq![s[i]] + rest, k)),
            None => None,
        }
    }
}

/// The value whose text starts at `i`, and the position after it. An object that names a key
/// twice keeps the key once, at its first place, with its last value.
pub open spec fn value_at(s: Seq<char>, i: int) -> Option<(JsonV, int)>
    decreases s.len() - i, 0int,
{
    if !(0 <= i < s.len()) {
        None
    } else if s[i] == 'n' {
        if i + 4 <= s.len() && s.subrange(i, i + 4) == "null"@ {
            Some((JsonV::Null, i + 4))
        } else {
            None
        }
    } else if s[i] == 't' {
        if i + 4 <= s.len() && s.subrange(i, i + 4) == "true"@ {
            Some((JsonV::Bool(true), i + 4))
        } else {
            None
        }
    } else if s[i] == 'f' {
        if i + 5 <= s.len() && s.subrange(i, i + 5) == "false"@ {
            Some((JsonV::Bool(false), i + 5))
        } else {
            None
        }
    } else if s[i] == '"' {
        match string_at(s, i + 1) {
            Some((t, k)) => Some((JsonV::Str(t), k)),
            None => None,
        }
    } else if s[i] == '-' || is_digit(s[i]) {
        match number_end(s, i) {
            Some(d) => Some((JsonV::Number(number_of(s.subrange(i, d))), d)),
            None => None,
        }
    } else if s[i] == '[' {
        let j = skip_ws(s, i + 1);
        if j < s.len() && s[j] == ']' {
            Some((JsonV::Array(Seq::empty()), j + 1))
        } else if i < j <= s.len() {
            match elements_at(s, j) {
                Some((items, k)) => Some((JsonV::Array(items), k)),
                None => None,
            }
        } else {
            None
        }
    } else if s[i] == '{' {
        let j = skip_ws(s, i + 1);
        if j < s.len() && s[j] == '}' {
            Some((JsonV::Object(Seq::empty()), j + 1))
        } else if i < j <= s.len() {
            match members_at(s, j) {
                Some((members, k)) => Some(
                    (JsonV::Object(crate::state_store::merge_members(Seq::empty(), members)), k),
                ),
                None => None,
            }
        } else {
            None
        }
    } else {
        None
    }
}

/// The array items that start at `i`, through the closing bracket.
pub open spec fn elements_at(s: Seq<char>, i: int) -> Option<(Seq<JsonV>, int)>
    decreases s.len() - i, 1int,
{
    if !(0 <= i <= s.len()) {
        None
    } else {
        match value_at(s, i) {
            Some((v, j)) => {
                let k = skip_ws(s, j);
                if 0 <= k < s.len() && s[k] == ',' {
                    let k2 = skip_ws(s, k + 1);
                    if i < k2 <= s.len() {
                        match elements_at(s, k2) {
                            Some((rest, e)) => Some((seq![v] + rest, e)),
                            None => None,
                        }
                    } else {
                        None
                    }
                } else if 0 <= k < s.len() && s[k] == ']' {
                    Some((seq![v], k + 1))
                } else {
                    None
                }
            },
            None => None,
        }
    }
}

/// The object members that start at `i`, through the closing brace.
pub open spec fn members_at(s: Seq<char>, i: int) -> Option<(Seq<(Seq<char>, JsonV)>, int)>
    decreases s.len() - i, 1int,
{
    if !(0 <= i < s.len()) || s[i] != '"' {
        None
    } else {
        match string_at(s, i + 1) {
            Some((key, j)) => {
                let k = skip_ws(s, j);
                if 0 <= k < s.len() && s[k] == ':' && k > i {
                    let vs = skip_ws(s, k + 1);
                    if i < vs <= s.len() {
                        match value_at(s, vs) {
                            Some((v, e)) => {
                                let f = skip_ws(s, e);
                                if 0 <= f < s.len() && s[f] == ',' {
                                    let g = skip_ws(s, f + 1);
                                    if i < g <= s.len() {
                                        match members_at(s, g) {
                                            Some((rest, h)) => Some((seq![(key, v)] + rest, h)),
                                            None => None,
                                        }
                                    } else {
                                        None
                                    }
                                } else if 0 <= f < s.len() && s[f] == '}' {
                                    Some((seq![(key, v)], f + 1))
                                } else {
                                    None
                                }
                            },
                            None => None,
                        }
                    } else {
                        None
                    }
                } else {
                    None
                }
            },
            None => None,
        }
    }
}

/// Every value that the reader reads is well formed: an object keeps each key once.
pub proof fn lemma_value_wf(s: Seq<char>, i: int)
    ensures
        value_at(s, i) matches Some((v, _)) ==> crate::json::wf(v),
    decreases s.len() - i, 0int,
{
    if 0 <= i < s.len() {
        if s[i] == '[' {
            let j = skip_ws(s, i + 1);
            if !(j < s.len() && s[j] == ']') && i < j <= s.len() {
                lemma_elements_wf(s, j);
            }
        } else if s[i] == '{' {
            let j = skip_ws(s, i + 1);
            if !(j < s.len() && s[j] == '}') && i < j <= s.len() {
                lemma_members_wf(s, j);
                if let Some((m, k)) = members_at(s, j) {
                    assert(crate::json::wf(JsonV::Object(Seq::empty())));
                    crate::state_store::lemma_merge_members_wf(Seq::empty(), m);
                }
            } else {
                assert(crate::json::wf(JsonV::Object(Seq::empty())));
            }
        }
    }
}

proof fn lemma_elements_wf(s: Seq<char>, i: int)
    ensures
        elements_at(s, i) matches Some((items, _)) ==> forall|k: int|
            0 <= k < items.len() ==> crate::json::wf(#[trigger] items[k]),
    decreases s.len() - i, 1int,
{
    if 0 <= i <= s.len() {
        lemma_value_wf(s, i);
        if let Some((v, j)) = value_at(s, i) {
            let k = skip_ws(s, j);
            if 0 <= k < s.len() && s[k] == ',' {
                let k2 = skip_ws(s, k + 1);
                if i < k2 <= s.len() {
                    lemma_elements_wf(s, k2);
                    if let Some((rest, e)) = elements_at(s, k2) {
                        let items = seq![v] + rest;
                        assert forall|t: int| 0 <= t < items.len() implies crate::json::wf(
                            #[trigger] items[t],
                        ) by {
                            if t > 0 {
                                assert(items[t] == rest[t - 1]);
                            }
                        }
                    }
                }
            }
        }
    }
}

proof fn lemma_members_wf(s: Seq<char>, i: int)
    ensures
        members_at(s, i) matches Some((m, _)) ==> forall|k: int|
            0 <= k < m.len() ==> crate::json::wf(#[trigger] m[k].1),
    decreases s.len() - i, 1int,
{
    if 0 <= i < s.len() && s[i] == '"' {
        if let Some((key, j)) = string_at(s, i + 1) {
            let k = skip_ws(s, j);
            if 0 <= k < s.len() && s[k] == ':' && k > i {
                let vs = skip_ws(s, k + 1);
                if i < vs <= s.len() {
                    lemma_value_wf(s, vs);
                    if let Some((v, e)) = value_at(s, vs) {
                        let f = skip_ws(s, e);
                        if 0 <= f < s.len() && s[f] == ',' {
                            let g = skip_ws(s, f + 1);
                            if i < g <= s.len() {
                                lemma_members_wf(s, g);
                                if let Some((rest, h)) = members_at(s, g) {
                                    let m = seq![(key, v)] + rest;
                                    assert forall|t: int| 0 <= t < m.len() implies crate::json::wf(
                                        #[trigger] m[t].1,
                                    ) by {
                                        if t > 0 {
                                            assert(m[t] == rest[t - 1]);
                                        }
                                    }
                                }
                            }
                        }
                    }
                }
            }
        }
    }
}

/// The value that the JSON text `s` holds, with whitespace around it allowed.
pub open spec fn parse_json_spec(s: Seq<char>) -> Option<JsonV> {
    match value_at(s, skip_ws(s, 0)) {
        Some((v, j)) => if skip_ws(s, j) == s.len() {
            Some(v)
        } else {
            None
        },
        None => None,
    }
}

/// Relies on `char::from_u32`: the character of a scalar value, and none for a surrogate or a
/// value past `0x10FFFF`.
#[verifier::external_body]
pub(crate) fn char_from_code(u: u32) -> (r: Option<char>)
    ensures
        r matches Some(c) ==> c as u32 == u,
        (u <= 0x10FFFF && !(0xD800 <= u && u <= 0xDFFF)) ==> r is Some,
{
    char::from_u32(u)
}

fn skip_ws_exec(cs: &Vec<char>, i: usize) -> (r: usize)
    requires
        i <= cs@.len(),
    ensures
        r as int == skip_ws(cs@, i as int),
        i <= r <= cs@.len(),
{
    let mut k = i;
    while k < cs.len() && (cs[k] == ' ' || cs[k] == '\t' || cs[k] == '\n' || cs[k] == '\r')
        invariant
            i <= k <= cs@.len(),
            skip_ws(cs@, k as int) == skip_ws(cs@, i as int),
        decreases cs.len() - k,
    {
        k = k + 1;
    }
    k
}

pub(crate) fn digits_end_exec(cs: &Vec<char>, i: usize) -> (r: usize)
    requires
        i <= cs@.len(),
    ensures
        r as int == digits_end(cs@, i as int),
        i <= r <= cs@.len(),
{
    let mut k = i;
    while k < cs.len() && '0' <= cs[k] && cs[k] <= '9'
        invariant
            i <= k <= cs@.len(),
            digits_end(cs@, k as int) == digits_end(cs@, i as int),
        decreases cs.len() - k,
    {
        k = k + 1;
    }
    k
}

pub(crate) fn number_end_exec(cs: &Vec<char>, i: usize) -> (r: Option<usize>)
    requires
        i < cs@.len(),
    ensures
        r matches Some(d) ==> number_end(cs@, i as int) == Some(d as int) && i < d <= cs@.len(),
        r is None ==> number_end(cs@, i as int) is None,
{
    let n = cs.len();
    let a = if cs[i] == '-' {
        i + 1
    } else {
        i
    };
    let b = if a < n && cs[a] == '0' {
        a + 1
    } else if a < n && '0' <= cs[a] && cs[a] <= '9' {
        digits_end_exec(cs, a + 1)
    } else {
        return None;
    };
    let c = if b < n && cs[b] == '.' {
        let e = digits_end_exec(cs, b + 1);
        if e == b + 1 {
            return None;
        }
        e
    } else {
        b
    };
    if c < n && (cs[c] == 'e' || cs[c] == 'E') {
        let d0 = if c + 1 < n && (cs[c + 1] == '+' || cs[c + 1] == '-') {
            c + 2
        } else {
            c + 1
        };
        let d = digits_end_exec(cs, d0);
        if d == d0 {
            return None;
        }
        Some(d)
    } else {
        Some(c)
    }
}

pub proof fn lemma_digits_value_step(t: Seq<char>, k: int)
    requires
        0 <= k < t.len(),
    ensures
        digits_value(t.subrange(0, k + 1)) == digits_value(t.subrange(0, k)) * 10 + ((t[k] as int
            - 48) as nat),
{
    assert(t.subrange(0, k + 1).drop_last() =~= t.subrange(0, k));
}

/// The number that `cs[i..d]` stands for.
fn number_exec(cs: &Vec<char>, i: usize, d: usize) -> (r: Number)
    requires
        i < d <= cs@.len(),
    ensures
        r@ == number_of(cs@.subrange(i as int, d as int)),
{
    let ghost text = cs@.subrange(i as int, d as int);
    let neg = cs[i] == '-';
    let start = if neg {
        i + 1
    } else {
        i
    };
    let ghost body = cs@.subrange(start as int, d as int);
    let mut acc: u64 = 0;
    let mut over = false;
    let mut all = true;
    let mut k = start;
    while k < d
        invariant
            i <= start <= k <= d <= cs@.len(),
            body == cs@.subrange(start as int, d as int),
            all == all_digits(cs@.subrange(start as int, k as int)),
            all && !over ==> acc as nat == digits_value(cs@.subrange(start as int, k as int)),
            all && over ==> digits_value(cs@.subrange(start as int, k as int)) > u64::MAX,
        decreases d - k,
    {
        let c = cs[k];
        let ghost pre = cs@.subrange(start as int, k as int);
        proof {
            lemma_digits_value_step(body, k - start);
            assert(body.subrange(0, k - start) =~= pre);
            assert(body.subrange(0, k - start + 1) =~= cs@.subrange(start as int, k + 1));
        }
        if all && '0' <= c && c <= '9' {
            let dig: u64 = (c as u32 - 48) as u64;
            if !over {
                if acc > (u64::MAX - dig) / 10 {
                    over = true;
                    proof {
                        assert(acc * 10 + dig > u64::MAX) by (nonlinear_arith)
                            requires
                                acc > (u64::MAX - dig) / 10,
                                dig <= 9,
                        ;
                    }
                } else {
                    proof {
                        assert(acc * 10 + dig <= u64::MAX) by (nonlinear_arith)
                            requires
                                acc <= (u64::MAX - dig) / 10,
                                dig <= 9,
                        ;
                    }
                    acc = acc * 10 + dig;
                }
            } else {
                proof {
                    let v = digits_value(pre);
                    assert(v * 10 + dig >= v) by (nonlinear_arith)
                        requires
                            v >= 0,
                            dig >= 0,
                    ;
                }
            }
            assert(all_digits(cs@.subrange(start as int, k + 1)));
        } else {
            if all {
                assert(!is_digit(cs@.subrange(start as int, k + 1)[k - start]));
            }
            all = false;
        }
        k = k + 1;
    }
    assert(cs@.subrange(start as int, k as int) =~= body);
    proof {
        if neg {
            assert(text.drop_first() =~= body);
            assert(text[0] == '-');
            assert(!is_digit(text[0]));
        } else {
            assert(text =~= body);
        }
    }
    if all && start < d && !over {
        if !neg {
            return Number::PosInt(acc);
        } else if acc > 0 && acc <= 0x8000_0000_0000_0000 {
            if acc == 0x8000_0000_0000_0000 {
                return Number::NegInt(i64::MIN);
            }
            return Number::NegInt(-(acc as i64));
        }
    }
    proof {
        if neg && all && start < d {
            assert(text.len() > 1);
        }
        if !neg && all && start < d {
            assert(over);
        }
    }
    Number::Float(string_of(cs.as_slice(), i, d))
}

fn hex_value_exec(c: char) -> (r: i64)
    ensures
        r == hex_value(c),
{
    if '0' <= c && c <= '9' {
        (c as u32 - 48) as i64
    } else if 'a' <= c && c <= 'f' {
        (c as u32 - 87) as i64
    } else if 'A' <= c && c <= 'F' {
        (c as u32 - 55) as i64
    } else {
        -1
    }
}

fn hex4_exec(cs: &Vec<char>, i: usize) -> (r: i64)
    ensures
        r == hex4(cs@, i as int),
        -1 <= r <= 0xFFFF,
{
    if i <= cs.len() && cs.len() - i >= 4 {
        let a = hex_value_exec(cs[i]);
        let b = hex_value_exec(cs[i + 1]);
        let c = hex_value_exec(cs[i + 2]);
        let d = hex_value_exec(cs[i + 3]);
        if a >= 0 && b >= 0 && c >= 0 && d >= 0 {
            return ((a * 16 + b) * 16 + c) * 16 + d;
        }
    }
    -1
}

fn escape_exec(cs: &Vec<char>, i: usize) -> (r: Option<(char, usize)>)
    requires
        i < cs@.len(),
    ensures
        r matches Some((c, j)) ==> escape_at(cs@, i as int) == Some((c, j as int)) && i < j
            <= cs@.len(),
        r is None ==> escape_at(cs@, i as int) is None,
{
    if cs.len() - i < 2 {
        return None;
    }
    let e = cs[i + 1];
    if e == '"' {
        Some(('"', i + 2))
    } else if e == '\\' {
        Some(('\\', i + 2))
    } else if e == '/' {
        Some(('/', i + 2))
    } else if e == 'b' {
        Some(('\x08', i + 2))
    } else if e == 'f' {
        Some(('\x0C', i + 2))
    } else if e == 'n' {
        Some(('\n', i + 2))
    } else if e == 'r' {
        Some(('\r', i + 2))
    } else if e == 't' {
        Some(('\t', i + 2))
    } else if e == 'u' {
        let u = hex4_exec(cs, i + 2);
        if u < 0 || (0xDC00 <= u && u <= 0xDFFF) {
            None
        } else if 0xD800 <= u && u <= 0xDBFF {
            let l = if cs.len() - i > 7 && cs[i + 6] == '\\' && cs[i + 7] == 'u' {
                hex4_exec(cs, i + 8)
            } else {
                -1
            };
            if 0xDC00 <= l && l <= 0xDFFF {
                let code = (0x10000 + (u - 0xD800) * 0x400 + (l - 0xDC00)) as u32;
                match char_from_code(code) {
                    Some(c) => {
                        proof {
                            vstd::utf8::char_u32_cast(c, code);
                        }
                        Some((c, i + 12))
                    },
                    None => None,
                }
            } else {
                None
            }
        } else {
            match char_from_code(u as u32) {
                Some(c) => {
                    proof {
                        vstd::utf8::char_u32_cast(c, u as u32);
                    }
                    Some((c, i + 6))
                },
                None => None,
            }
        }
    } else {
        None
    }
}

/// The string whose body starts at `i`.
fn string_exec(cs: &Vec<char>, i: usize) -> (r: Option<(String, usize)>)
    requires
        i <= cs@.len(),
    ensures
        r matches Some((t, k)) ==> string_at(cs@, i as int) == Some((t@, k as int)) && k
            <= cs@.len(),
        r is None ==> string_at(cs@, i as int) is None,
{
    let mut acc = String::new();
    let mut k = i;
    while k < cs.len()
        invariant
            i <= k <= cs@.len(),
            string_at(cs@, i as int) == match string_at(cs@, k as int) {
                Some((rest, e)) => Some((acc@ + rest, e)),
                None => None,
            },
        decreases cs.len() - k,
    {
        let c = cs[k];
        if c == '"' {
            assert(acc@ + Seq::<char>::empty() =~= acc@);
            return Some((acc, k + 1));
        } else if c == '\\' {
            match escape_exec(cs, k) {
                Some((e, j)) => {
                    let ghost before = acc@;
                    push_char(&mut acc, e);
                    proof {
                        match string_at(cs@, j as int) {
                            Some((rest, _)) => {
                                assert(before + (seq![e] + rest) =~= acc@ + rest);
                            },
                            None => {},
                        }
                    }
                    k = j;
                },
                None => {
                    return None;
                },
            }
        } else if (c as u32) < 0x20 {
            return None;
        } else {
            let ghost before = acc@;
            push_char(&mut acc, c);
            proof {
                match string_at(cs@, k + 1) {
                    Some((rest, _)) => {
                        assert(before + (seq![c] + rest) =~= acc@ + rest);
                    },
                    None => {},
                }
            }
            k = k + 1;
        }
    }
    None
}

/// Whether `lit` stands in `cs` at `i`.
fn literal_at(cs: &Vec<char>, i: usize, lit: &str) -> (r: bool)
    ensures
        r == (i + lit@.len() <= cs@.len() && cs@.subrange(i as int, i + lit@.len()) == lit@),
{
    let pat = chars_of(lit);
    matches_at(cs.as_slice(), i, pat.as_slice())
}

fn value_exec(cs: &Vec<char>, i: usize) -> (r: Option<(Json, usize)>)
    ensures
        r matches Some((v, j)) ==> value_at(cs@, i as int) == Some((v@, j as int)) && i < j
            <= cs@.len(),
        r is None ==> value_at(cs@, i as int) is None,
    decreases cs@.len() - i, 0int,
{
    if i >= cs.len() {
        return None;
    }
    let c = cs[i];
    if c == 'n' {
        if literal_at(cs, i, "null") {
            proof { reveal_strlit("null"); }
            Some((Json::Null, i + 4))
        } else {
            proof { reveal_strlit("null"); }
            None
        }
    } else if c == 't' {
        if literal_at(cs, i, "true") {
            proof { reveal_strlit("true"); }
            Some((Json::Bool(true), i + 4))
        } else {
            proof { reveal_strlit("true"); }
            None
        }
    } else if c == 'f' {
        if literal_at(cs, i, "false") {
            proof { reveal_strlit("false"); }
            Some((Json::Bool(false), i + 5))
        } else {
            proof { reveal_strlit("false"); }
            None
        }
    } else if c == '"' {
        match string_exec(cs, i + 1) {
            Some((t, k)) => {
                proof {
                    lemma_string_end(cs@, i + 1);
                }
                Some((Json::Str(t), k))
            },
            None => None,
        }
    } else if c == '-' || ('0' <= c && c <= '9') {
        match number_end_exec(cs, i) {
            Some(d) => Some((Json::Number(number_exec(cs, i, d)), d)),
            None => None,
        }
    } else if c == '[' {
        let j = skip_ws_exec(cs, i + 1);
        if j < cs.len() && cs[j] == ']' {
            let e: Vec<Json> = Vec::new();
            proof {
                lemma_views_eq(e@, Seq::empty());
            }
            Some((Json::Array(e), j + 1))
        } else {
            match elements_exec(cs, j) {
                Some((items, k)) => Some((Json::Array(items), k)),
                None => None,
            }
        }
    } else if c == '{' {
        let j = skip_ws_exec(cs, i + 1);
        if j < cs.len() && cs[j] == '}' {
            let e: Vec<(String, Json)> = Vec::new();
            proof {
                lemma_member_views_eq(e@, Seq::empty());
            }
            Some((Json::Object(e), j + 1))
        } else {
            match members_exec(cs, j) {
                Some((members, k)) => {
                    let e: Vec<(String, Json)> = Vec::new();
                    proof {
                        lemma_member_views_eq(e@, Seq::empty());
                    }
                    Some((Json::Object(crate::state_store::merge_members_exec(e, members)), k))
                },
                None => None,
            }
        }
    } else {
        None
    }
}

proof fn lemma_string_end(s: Seq<char>, i: int)
    requires
        0 <= i,
    ensures
        string_at(s, i) matches Some((_, k)) ==> i < k <= s.len(),
    decreases s.len() - i,
{
    if 0 <= i < s.len() && s[i] != '"' {
        if s[i] == '\\' {
            if let Some((c, j)) = escape_at(s, i) {
                if j > i {
                    lemma_string_end(s, j);
                }
            }
        } else if !((s[i] as u32) < 0x20) {
            lemma_string_end(s, i + 1);
        }
    }
}

fn elements_exec(cs: &Vec<char>, i: usize) -> (r: Option<(Vec<Json>, usize)>)
    requires
        i <= cs@.len(),
    ensures
        r matches Some((items, e)) ==> elements_at(cs@, i as int) == Some((views(items@), e as int))
            && i < e <= cs@.len(),
        r is None ==> elements_at(cs@, i as int) is None,
    decreases cs@.len() - i, 1int,
{
    match value_exec(cs, i) {
        Some((v, j)) => {
            let k = skip_ws_exec(cs, j);
            if k < cs.len() && cs[k] == ',' {
                let k2 = skip_ws_exec(cs, k + 1);
                match elements_exec(cs, k2) {
                    Some((rest, e)) => {
                        let ghost rv = views(rest@);
                        let ghost vv = v@;
                        proof {
                            lemma_views_index(rest@);
                        }
                        let mut items = rest;
                        items.insert(0, v);
                        proof {
                            lemma_views_eq(items@, seq![vv] + rv);
                        }
                        Some((items, e))
                    },
                    None => None,
                }
            } else if k < cs.len() && cs[k] == ']' {
                let ghost vv = v@;
                let mut items: Vec<Json> = Vec::new();
                items.push(v);
                proof {
                    lemma_views_eq(items@, seq![vv]);
                }
                Some((items, k + 1))
            } else {
                None
            }
        },
        None => None,
    }
}

fn members_exec(cs: &Vec<char>, i: usize) -> (r: Option<(Vec<(String, Json)>, usize)>)
    requires
        i <= cs@.len(),
    ensures
        r matches Some((members, e)) ==> members_at(cs@, i as int) == Some(
            (member_views(members@), e as int),
        ) && i < e <= cs@.len(),
        r is None ==> members_at(cs@, i as int) is None,
    decreases cs@.len() - i, 1int,
{
    if i >= cs.len() || cs[i] != '"' {
        return None;
    }
    match string_exec(cs, i + 1) {
        Some((key, j)) => {
            proof {
                lemma_string_end(cs@, i + 1);
            }
            let k = skip_ws_exec(cs, j);
            if k < cs.len() && cs[k] == ':' {
                let vs = skip_ws_exec(cs, k + 1);
                match value_exec(cs, vs) {
                    Some((v, e)) => {
                        let f = skip_ws_exec(cs, e);
                        if f < cs.len() && cs[f] == ',' {
                            let g = skip_ws_exec(cs, f + 1);
                            match members_exec(cs, g) {
                                Some((rest, h)) => {
                                    let ghost rv = member_views(rest@);
                                    let ghost kv = key@;
                                    let ghost vv = v@;
                                    proof {
                                        lemma_member_views_index(rest@);
                                    }
                                    let mut members = rest;
                                    members.insert(0, (key, v));
                                    proof {
                                        lemma_member_views_eq(members@, seq![(kv, vv)] + rv);
                                    }
                                    Some((members, h))
                                },
                                None => None,
                            }
                        } else if f < cs.len() && cs[f] == '}' {
                            let ghost kv = key@;
                            let ghost vv = v@;
                            let mut members: Vec<(String, Json)> = Vec::new();
                            members.push((key, v));
                            proof {
                                lemma_member_views_eq(members@, seq![(kv, vv)]);
                            }
                            Some((members, f + 1))
                        } else {
                            None
                        }
                    },
                    None => None,
                }
            } else {
                None
            }
        },
        None => None,
    }
}

/// The value that the JSON text holds, if it is JSON text.
pub fn parse_json(text: &str) -> (r: Option<Json>)
    ensures
        r matches Some(v) ==> parse_json_spec(text@) == Some(v@) && crate::json::wf(v@),
        r is None ==> parse_json_spec(text@) is None,
{
    proof {
        lemma_value_wf(text@, skip_ws(text@, 0));
    }
    let cs = chars_of(text);
    let i = skip_ws_exec(&cs, 0);
    match value_exec(&cs, i) {
        Some((v, j)) => {
            if skip_ws_exec(&cs, j) == cs.len() {
                Some(v)
            } else {
                None
            }
        },
        None => None,
    }
}

} // verus!
