//! Compact JSON text for the engine's values.
use vstd::prelude::*;

use crate::json::{
    lemma_member_views_index, lemma_views_index, member_views, views, Json, JsonV, Number, NumberV,
};
use crate::text::push_char;

verus! {

/// The decimal digits of `n`.
pub open spec fn decimal(n: nat) -> Seq<char>
    decreases n,
{
    if n < 10 {
        seq![digit_char(n)]
    } else {
        decimal(n / 10).push(digit_char(n % 10))
    }
}

pub open spec fn digit_char(d: nat) -> char {
    if d < 10 {
        (d + 48) as char
    } else {
        '0'
    }
}

/// The text of a number.
pub open spec fn number_text(n: NumberV) -> Seq<char> {
    match n {
        NumberV::PosInt(k) => decimal(k as nat),
        NumberV::NegInt(k) => if k < 0 {
            seq!['-'] + decimal((-k) as nat)
        } else {
            decimal(k as nat)
        },
        NumberV::Float(t) => t,
    }
}

pub open spec fn hex_char(d: nat) -> char {
    if d < 10 {
        (d + 48) as char
    } else if d < 16 {
        (d + 87) as char
    } else {
        '0'
    }
}

/// How one character stands inside a JSON string: quote, backslash and control characters
/// escaped, everything else as it is.
pub open spec fn escape_char(c: char) -> Seq<char> {
    if c == '"' {
        seq!['\\', '"']
    } else if c == '\\' {
        seq!['\\', '\\']
    } else if c == '\x08' {
        seq!['\\', 'b']
    } else if c == '\x0C' {
        seq!['\\', 'f']
    } else if c == '\n' {
        seq!['\\', 'n']
    } else if c == '\r' {
        seq!['\\', 'r']
    } else if c == '\t' {
        seq!['\\', 't']
    } else if (c as u32) < 0x20 {
        seq!['\\', 'u', '0', '0', hex_char((c as u32 / 16) as nat), hex_char((c as u32 % 16) as nat)]
    } else {
        seq![c]
    }
}

pub open spec fn escape_text(s: Seq<char>) -> Seq<char>
    decreases s.len(),
{
    if s.len() == 0 {
        Seq::empty()
    } else {
        escape_text(s.drop_last()) + escape_char(s.last())
    }
}

pub open spec fn quoted(s: Seq<char>) -> Seq<char> {
    seq!['"'] + escape_text(s) + seq!['"']
}

/// The compact JSON text of `v`.
pub open spec fn json_text(v: JsonV) -> Seq<char>
    decreases v,
{
    match v {
        JsonV::Null => "null"@,
        JsonV::Bool(b) => if b {
            "true"@
        } else {
            "false"@
        },
        JsonV::Number(n) => number_text(n),
        JsonV::Str(s) => quoted(s),
        JsonV::Array(items) => seq!['['] + items_text(items) + seq![']'],
        JsonV::Object(members) => seq!['{'] + members_text(members) + seq!['}'],
    }
}

/// The items, comma-separated.
pub open spec fn items_text(items: Seq<JsonV>) -> Seq<char>
    decreases items,
{
    if items.len() == 0 {
        Seq::empty()
    } else if items.len() == 1 {
        json_text(items[0])
    } else {
        items_text(items.drop_last()) + seq![','] + json_text(items.last())
    }
}

/// The members as `"key":value`, comma-separated.
pub open spec fn members_text(members: Seq<(Seq<char>, JsonV)>) -> Seq<char>
    decreases members,
{
    if members.len() == 0 {
        Seq::empty()
    } else if members.len() == 1 {
        quoted(members[0].0) + seq![':'] + json_text(members[0].1)
    } else {
        members_text(members.drop_last()) + seq![','] + quoted(members.last().0) + seq![':']
            + json_text(members.last().1)
    }
}

/// The lower-case hexadecimal digit of `d`.
fn hex_digit(d: u8) -> (r: char)
    requires
        d < 16,
    ensures
        r == hex_char(d as nat),
        d < 10 ==> r == digit_char(d as nat),
{
    match d {
        0 => '0',
        1 => '1',
        2 => '2',
        3 => '3',
        4 => '4',
        5 => '5',
        6 => '6',
        7 => '7',
        8 => '8',
        9 => '9',
        10 => 'a',
        11 => 'b',
        12 => 'c',
        13 => 'd',
        14 => 'e',
        _ => 'f',
    }
}

fn push_str(out: &mut String, s: &str)
    ensures
        final(out)@ == old(out)@ + s@,
{
    out.append(s);
}

/// Appends the decimal digits of `n`.
pub fn write_decimal(out: &mut String, n: u64)
    ensures
        final(out)@ == old(out)@ + decimal(n as nat),
    decreases n,
{
    if n >= 10 {
        write_decimal(out, n / 10);
    }
    let c = hex_digit((n % 10) as u8);
    push_char(out, c);
    proof {
        if n >= 10 {
            assert(decimal(n as nat) == decimal((n / 10) as nat).push(digit_char((n % 10) as nat)));
        }
    }
    assert(final(out)@ =~= old(out)@ + decimal(n as nat));
}

/// Appends `s` as a quoted JSON string.
pub fn write_quoted(out: &mut String, s: &str)
    ensures
        final(out)@ == old(out)@ + quoted(s@),
{
    let cs = crate::text::chars_of(s);
    push_char(out, '"');
    let ghost start = out@;
    let mut i: usize = 0;
    while i < cs.len()
        invariant
            cs@ == s@,
            i <= cs@.len(),
            out@ == start + escape_text(cs@.subrange(0, i as int)),
        decreases cs.len() - i,
    {
        let c = cs[i];
        let ghost before = out@;
        if c == '"' {
            push_str(out, "\\\"");
        } else if c == '\\' {
            push_str(out, "\\\\");
        } else if c == '\x08' {
            push_str(out, "\\b");
        } else if c == '\x0C' {
            push_str(out, "\\f");
        } else if c == '\n' {
            push_str(out, "\\n");
        } else if c == '\r' {
            push_str(out, "\\r");
        } else if c == '\t' {
            push_str(out, "\\t");
        } else if (c as u32) < 0x20 {
            push_str(out, "\\u00");
            push_char(out, hex_digit(((c as u32) / 16) as u8));
            push_char(out, hex_digit(((c as u32) % 16) as u8));
        } else {
            push_char(out, c);
        }
        proof {
            reveal_strlit("\\\"");
            reveal_strlit("\\\\");
            reveal_strlit("\\b");
            reveal_strlit("\\f");
            reveal_strlit("\\n");
            reveal_strlit("\\r");
            reveal_strlit("\\t");
            reveal_strlit("\\u00");
            assert(out@ =~= before + escape_char(c));
            assert(cs@.subrange(0, i + 1).drop_last() =~= cs@.subrange(0, i as int));
        }
        i = i + 1;
    }
    push_char(out, '"');
    assert(cs@.subrange(0, cs@.len() as int) =~= s@);
    assert(final(out)@ =~= old(out)@ + quoted(s@));
}

/// Appends the text of a number.
pub fn write_number(out: &mut String, n: &Number)
    ensures
        final(out)@ == old(out)@ + number_text(n@),
{
    match n {
        Number::PosInt(k) => write_decimal(out, *k),
        Number::NegInt(k) => {
            if *k < 0 {
                push_char(out, '-');
                let m: u64 = if *k == i64::MIN {
                    9223372036854775808u64
                } else {
                    (-*k) as u64
                };
                write_decimal(out, m);
                assert(final(out)@ =~= old(out)@ + number_text(n@));
            } else {
                write_decimal(out, *k as u64);
            }
        },
        Number::Float(t) => push_str(out, t.as_str()),
    }
}

/// Appends the compact JSON text of `v`.
pub fn write_json(out: &mut String, v: &Json)
    ensures
        final(out)@ == old(out)@ + json_text(v@),
    decreases v,
{
    match v {
        Json::Null => {
            push_str(out, "null");
            proof { reveal_strlit("null"); }
        },
        Json::Bool(b) => {
            if *b {
                push_str(out, "true");
            } else {
                push_str(out, "false");
            }
        },
        Json::Number(n) => write_number(out, n),
        Json::Str(s) => write_quoted(out, s.as_str()),
        Json::Array(items) => {
            push_char(out, '[');
            let ghost start = out@;
            let ghost iv = views(items@);
            proof {
                lemma_views_index(items@);
            }
            let mut i: usize = 0;
            while i < items.len()
                invariant
                    *v == Json::Array(*items),
                    i <= items@.len(),
                    iv == views(items@),
                    iv.len() == items@.len(),
                    forall|j: int| 0 <= j < items@.len() ==> #[trigger] iv[j] == items@[j]@,
                    out@ == start + items_text(iv.subrange(0, i as int)),
                decreases items.len() - i,
            {
                proof {
                    assert(decreases_to!(*v => v->Array_0));
                    assert(decreases_to!(*items => items@));
                    assert(decreases_to!(items@ => items@[i as int]));
                    assert(iv.subrange(0, i + 1).drop_last() =~= iv.subrange(0, i as int));
                }
                let ghost before = out@;
                if i > 0 {
                    push_char(out, ',');
                }
                write_json(out, &items[i]);
                assert(out@ =~= start + items_text(iv.subrange(0, i + 1)));
                i = i + 1;
            }
            push_char(out, ']');
            assert(iv.subrange(0, i as int) =~= iv);
            assert(final(out)@ =~= old(out)@ + json_text(v@));
        },
        Json::Object(members) => {
            push_char(out, '{');
            let ghost start = out@;
            let ghost mv = member_views(members@);
            proof {
                lemma_member_views_index(members@);
            }
            let mut i: usize = 0;
            while i < members.len()
                invariant
                    *v == Json::Object(*members),
                    i <= members@.len(),
                    mv == member_views(members@),
                    mv.len() == members@.len(),
                    forall|j: int|
                        0 <= j < members@.len() ==> #[trigger] mv[j] == (
                            members@[j].0@,
                            members@[j].1@,
                        ),
                    out@ == start + members_text(mv.subrange(0, i as int)),
                decreases members.len() - i,
            {
                proof {
                    assert(decreases_to!(*v => v->Object_0));
                    assert(decreases_to!(*members => members@));
                    assert(decreases_to!(members@ => members@[i as int]));
                    assert(decreases_to!(members@[i as int] => members@[i as int].1));
                    assert(mv.subrange(0, i + 1).drop_last() =~= mv.subrange(0, i as int));
                }
                if i > 0 {
                    push_char(out, ',');
                }
                write_quoted(out, members[i].0.as_str());
                push_char(out, ':');
                write_json(out, &members[i].1);
                assert(out@ =~= start + members_text(mv.subrange(0, i + 1)));
                i = i + 1;
            }
            push_char(out, '}');
            assert(mv.subrange(0, i as int) =~= mv);
            assert(final(out)@ =~= old(out)@ + json_text(v@));
        },
    }
}

/// The compact JSON text of `v`.
pub fn to_json_string(v: &Json) -> (r: String)
    ensures
        r@ == json_text(v@),
{
    let mut out = String::new();
    write_json(&mut out, v);
    assert(out@ =~= json_text(v@));
    out
}

} // verus!
