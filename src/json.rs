//! The JSON value model that the engine works on.
use vstd::prelude::*;

verus! {

/// A JSON number: a non-negative integer, a negative integer, or any other number kept as
/// its decimal text.
#[derive(Debug, Clone, PartialEq)]
pub enum Number {
    PosInt(u64),
    NegInt(i64),
    Float(String),
}

/// A JSON value. Object members keep their order; a key names the first member that holds it.
#[derive(Debug, PartialEq)]
pub enum Json {
    Null,
    Bool(bool),
    Number(Number),
    Str(String),
    Array(Vec<Json>),
    Object(Vec<(String, Json)>),
}

/// The mathematical value of a `Number`.
pub enum NumberV {
    PosInt(u64),
    NegInt(i64),
    Float(Seq<char>),
}

/// The mathematical value of a `Json`.
pub enum JsonV {
    Null,
    Bool(bool),
    Number(NumberV),
    Str(Seq<char>),
    Array(Seq<JsonV>),
    Object(Seq<(Seq<char>, JsonV)>),
}

impl View for Number {
    type V = NumberV;

    open spec fn view(&self) -> NumberV {
        match self {
            Number::PosInt(n) => NumberV::PosInt(*n),
            Number::NegInt(n) => NumberV::NegInt(*n),
            Number::Float(t) => NumberV::Float(t@),
        }
    }
}

impl View for Json {
    type V = JsonV;

    open spec fn view(&self) -> JsonV
        decreases self,
    {
        match self {
            Json::Null => JsonV::Null,
            Json::Bool(b) => JsonV::Bool(*b),
            Json::Number(n) => JsonV::Number(n@),
            Json::Str(s) => JsonV::Str(s@),
            Json::Array(items) => JsonV::Array(views(items@)),
            Json::Object(members) => JsonV::Object(member_views(members@)),
        }
    }
}

/// The values of a sequence of items.
pub open spec fn views(items: Seq<Json>) -> Seq<JsonV>
    decreases items,
{
    if items.len() == 0 {
        Seq::empty()
    } else {
        views(items.drop_last()).push(items.last().view())
    }
}

/// The values of a sequence of object members.
pub open spec fn member_views(members: Seq<(String, Json)>) -> Seq<(Seq<char>, JsonV)>
    decreases members,
{
    if members.len() == 0 {
        Seq::empty()
    } else {
        member_views(members.drop_last()).push((members.last().0@, members.last().1.view()))
    }
}

pub proof fn lemma_views_index(items: Seq<Json>)
    ensures
        views(items).len() == items.len(),
        forall|i: int| 0 <= i < items.len() ==> #[trigger] views(items)[i] == items[i]@,
    decreases items.len(),
{
    if items.len() > 0 {
        lemma_views_index(items.drop_last());
        assert(views(items) == views(items.drop_last()).push(items.last().view()));
        assert(views(items).len() == items.len());
    } else {
        assert(views(items) == Seq::<JsonV>::empty());
    }
}

pub proof fn lemma_member_views_index(members: Seq<(String, Json)>)
    ensures
        member_views(members).len() == members.len(),
        forall|i: int|
            0 <= i < members.len() ==> #[trigger] member_views(members)[i] == (
                members[i].0@,
                members[i].1@,
            ),
    decreases members.len(),
{
    if members.len() > 0 {
        lemma_member_views_index(members.drop_last());
        assert(member_views(members) == member_views(members.drop_last()).push(
            (members.last().0@, members.last().1.view()),
        ));
    } else {
        assert(member_views(members) == Seq::<(Seq<char>, JsonV)>::empty());
    }
}

/// `member_views` is determined by the views of the members.
pub proof fn lemma_member_views_eq(a: Seq<(String, Json)>, b: Seq<(Seq<char>, JsonV)>)
    requires
        a.len() == b.len(),
        forall|i: int| 0 <= i < a.len() ==> (#[trigger] a[i]).0@ == b[i].0 && a[i].1@ == b[i].1,
    ensures
        member_views(a) == b,
{
    lemma_member_views_index(a);
    assert(member_views(a) =~= b);
}

/// `views` is determined by the views of the items.
pub proof fn lemma_views_eq(a: Seq<Json>, b: Seq<JsonV>)
    requires
        a.len() == b.len(),
        forall|i: int| 0 <= i < a.len() ==> (#[trigger] a[i])@ == b[i],
    ensures
        views(a) == b,
{
    lemma_views_index(a);
    assert(views(a) =~= b);
}

/// The position of the first member of `members` named `key`.
pub open spec fn key_index(members: Seq<(Seq<char>, JsonV)>, key: Seq<char>) -> Option<int>
    decreases members.len(),
{
    if members.len() == 0 {
        None
    } else if members[0].0 == key {
        Some(0)
    } else {
        match key_index(members.drop_first(), key) {
            Some(i) => Some(i + 1),
            None => None,
        }
    }
}

/// The value of the first member of `members` named `key`.
pub open spec fn member(members: Seq<(Seq<char>, JsonV)>, key: Seq<char>) -> Option<JsonV> {
    match key_index(members, key) {
        Some(i) => Some(members[i].1),
        None => None,
    }
}

/// `members` with the member named `key` holding `value`: the first such member is replaced
/// in place, or a new member is appended.
pub open spec fn put(members: Seq<(Seq<char>, JsonV)>, key: Seq<char>, value: JsonV) -> Seq<
    (Seq<char>, JsonV),
> {
    match key_index(members, key) {
        Some(i) => members.update(i, (key, value)),
        None => members.push((key, value)),
    }
}

/// No two members share a key.
pub open spec fn unique_keys(members: Seq<(Seq<char>, JsonV)>) -> bool {
    forall|i: int, j: int|
        0 <= i < j < members.len() ==> (#[trigger] members[i]).0 != (#[trigger] members[j]).0
}

/// A well-formed value: every object in it has unique keys, as a JSON object does.
pub open spec fn wf(v: JsonV) -> bool
    decreases v,
{
    match v {
        JsonV::Array(items) => forall|i: int| 0 <= i < items.len() ==> wf(#[trigger] items[i]),
        JsonV::Object(m) => unique_keys(m) && forall|i: int| 0 <= i < m.len() ==> wf(
            #[trigger] m[i].1,
        ),
        _ => true,
    }
}

/// Putting a well-formed value into a well-formed object keeps it well formed.
pub proof fn lemma_put_wf(members: Seq<(Seq<char>, JsonV)>, key: Seq<char>, value: JsonV)
    requires
        wf(JsonV::Object(members)),
        wf(value),
    ensures
        wf(JsonV::Object(put(members, key, value))),
{
    lemma_put_unique(members, key, value);
    lemma_key_index(members, key);
    let r = put(members, key, value);
    assert forall|i: int| 0 <= i < r.len() implies wf(#[trigger] r[i].1) by {
        if i < members.len() && r[i] != members[i] {
            assert(r[i].1 == value);
        }
        if i == members.len() {
            assert(r[i].1 == value);
        }
    }
}

/// A member of a well-formed object is well formed.
pub proof fn lemma_member_wf(members: Seq<(Seq<char>, JsonV)>, key: Seq<char>)
    requires
        wf(JsonV::Object(members)),
    ensures
        member(members, key) matches Some(c) ==> wf(c),
{
    lemma_key_index(members, key);
}

/// Putting a member keeps keys unique.
pub proof fn lemma_put_unique(members: Seq<(Seq<char>, JsonV)>, key: Seq<char>, value: JsonV)
    requires
        unique_keys(members),
    ensures
        unique_keys(put(members, key, value)),
{
    lemma_key_index(members, key);
    let r = put(members, key, value);
    assert forall|i: int, j: int| 0 <= i < j < r.len() implies (#[trigger] r[i]).0 != (
    #[trigger] r[j]).0 by {
        if key_index(members, key) is None && j == members.len() {
            assert(r[i] == members[i]);
        }
    }
}

/// With unique keys, the member named `key` is the only one: removing it leaves none.
pub proof fn lemma_remove_unique(members: Seq<(Seq<char>, JsonV)>, i: int)
    requires
        unique_keys(members),
        0 <= i < members.len(),
    ensures
        unique_keys(members.remove(i)),
        member(members.remove(i), members[i].0) is None,
{
    let r = members.remove(i);
    let k = members[i].0;
    assert forall|a: int, b: int| 0 <= a < b < r.len() implies (#[trigger] r[a]).0 != (
    #[trigger] r[b]).0 by {
        let a0 = if a < i { a } else { a + 1 };
        let b0 = if b < i { b } else { b + 1 };
        assert(r[a] == members[a0] && r[b] == members[b0]);
    }
    lemma_key_index(r, k);
    if let Some(t) = key_index(r, k) {
        let t0 = if t < i { t } else { t + 1 };
        assert(r[t] == members[t0]);
    }
}

/// The members of `v` when it is an object, and none otherwise.
pub open spec fn members_of(v: JsonV) -> Seq<(Seq<char>, JsonV)> {
    match v {
        JsonV::Object(m) => m,
        _ => Seq::empty(),
    }
}

pub proof fn lemma_key_index(members: Seq<(Seq<char>, JsonV)>, key: Seq<char>)
    ensures
        key_index(members, key) matches Some(i) ==> 0 <= i < members.len() && members[i].0 == key
            && forall|j: int| 0 <= j < i ==> #[trigger] members[j].0 != key,
        key_index(members, key) is None ==> forall|j: int|
            0 <= j < members.len() ==> #[trigger] members[j].0 != key,
    decreases members.len(),
{
    if members.len() > 0 {
        lemma_key_index(members.drop_first(), key);
        if members[0].0 != key {
            assert forall|j: int| 1 <= j < members.len() implies #[trigger] members[j].0
                == members.drop_first()[j - 1].0 by {}
        }
    }
}

pub proof fn lemma_put(members: Seq<(Seq<char>, JsonV)>, key: Seq<char>, value: JsonV)
    ensures
        member(put(members, key, value), key) == Some(value),
        forall|k: Seq<char>| k != key ==> member(#[trigger] put(members, key, value), k) == member(members, k),
{
    lemma_key_index(members, key);
    let r = put(members, key, value);
    lemma_key_index(r, key);
    assert forall|k: Seq<char>| k != key implies member(#[trigger] put(members, key, value), k)
        == member(members, k) by {
        lemma_key_index(members, k);
        lemma_key_index(r, k);
        if let Some(i) = key_index(r, k) {
            if let Some(j) = key_index(members, k) {
                if i < j { assert(r[i] == members[i]); }
                if j < i { assert(r[j] == members[j]); }
            } else {
                if i < members.len() { assert(r[i] == members[i]); }
            }
        } else {
            if let Some(j) = key_index(members, k) {
                assert(r[j] == members[j]);
            }
        }
    }
    if let Some(i) = key_index(r, key) {
        if let Some(j) = key_index(members, key) {
            if i < j { assert(r[i] == members[i]); }
            if j < i { assert(r[j].0 == key); }
        } else {
            if i < members.len() { assert(r[i] == members[i]); }
        }
    } else {
        if let Some(j) = key_index(members, key) {
            assert(r[j].0 == key);
        } else {
            assert(r[members.len() as int].0 == key);
        }
    }
}

/// The value under `key` when `v` is an object that has it.
pub open spec fn get_spec(v: JsonV, key: Seq<char>) -> Option<JsonV> {
    match v {
        JsonV::Object(members) => member(members, key),
        _ => None,
    }
}

/// Whether `a` and `b` hold the same text.
pub fn same_text(a: &str, b: &str) -> (r: bool)
    ensures
        r == (a@ == b@),
{
    let x = a.to_string();
    let y = b.to_string();
    x == y
}

/// The position of the first member named `key`.
pub fn find_key(members: &Vec<(String, Json)>, key: &str) -> (r: Option<usize>)
    ensures
        r matches Some(i) ==> key_index(member_views(members@), key@) == Some(i as int),
        r is None ==> key_index(member_views(members@), key@) is None,
{
    proof {
        lemma_member_views_index(members@);
        lemma_key_index(member_views(members@), key@);
    }
    let k = key.to_string();
    let mut i: usize = 0;
    while i < members.len()
        invariant
            i <= members@.len(),
            k@ == key@,
            member_views(members@).len() == members@.len(),
            forall|j: int| 0 <= j < i ==> #[trigger] member_views(members@)[j].0 != key@,
            forall|j: int| 0 <= j < members@.len() ==> #[trigger] member_views(members@)[j] == (members@[j].0@, members@[j].1@),
        decreases members.len() - i,
    {
        if members[i].0 == k {
            proof {
                let mv = member_views(members@);
                lemma_key_index(mv, key@);
                match key_index(mv, key@) {
                    Some(j) => {
                        if j > i {
                            assert(mv[i as int].0 == key@);
                        }
                    },
                    None => {
                        assert(mv[i as int].0 == key@);
                    },
                }
            }
            return Some(i);
        }
        i = i + 1;
    }
    proof {
        let mv = member_views(members@);
        lemma_key_index(mv, key@);
        if let Some(j) = key_index(mv, key@) {
            assert(mv[j].0 != key@);
        }
    }
    None
}

/// `members` with the member named `key` holding `value`, as `put` states it.
pub fn put_member(members: Vec<(String, Json)>, key: String, value: Json) -> (r: Vec<(String, Json)>)
    ensures
        member_views(r@) == put(member_views(members@), key@, value@),
{
    let ghost mv = member_views(members@);
    let ghost kv = key@;
    let ghost vv = value@;
    proof {
        lemma_member_views_index(members@);
        lemma_key_index(mv, kv);
    }
    let mut members = members;
    match find_key(&members, key.as_str()) {
        Some(i) => {
            let _ = members.remove(i);
            members.insert(i, (key, value));
            proof {
                lemma_member_views_eq(members@, mv.update(i as int, (kv, vv)));
            }
        },
        None => {
            members.push((key, value));
            proof {
                lemma_member_views_eq(members@, mv.push((kv, vv)));
            }
        },
    }
    members
}

impl Json {
    /// The value under `key`, when this is an object that has it.
    pub fn get(&self, key: &str) -> (r: Option<&Json>)
        ensures
            r matches Some(x) ==> get_spec(self@, key@) == Some(x@),
            r is None ==> get_spec(self@, key@) is None,
    {
        match self {
            Json::Object(members) => {
                proof {
                    lemma_member_views_index(members@);
                    lemma_key_index(member_views(members@), key@);
                    assert(self@ == JsonV::Object(member_views(members@)));
                }
                match find_key(members, key) {
                    Some(i) => Some(&members[i].1),
                    None => None,
                }
            },
            _ => None,
        }
    }

    /// The text of this value, when it is a string.
    pub fn as_str(&self) -> (r: Option<&String>)
        ensures
            r matches Some(t) ==> self@ == JsonV::Str(t@),
            r is None ==> !(self@ is Str),
    {
        match self {
            Json::Str(t) => Some(t),
            _ => None,
        }
    }

    pub fn is_object(&self) -> (r: bool)
        ensures
            r == (self@ is Object),
    {
        match self {
            Json::Object(_) => true,
            _ => false,
        }
    }

    pub fn is_array(&self) -> (r: bool)
        ensures
            r == (self@ is Array),
    {
        match self {
            Json::Array(_) => true,
            _ => false,
        }
    }

    pub fn is_null(&self) -> (r: bool)
        ensures
            r == (self@ is Null),
    {
        match self {
            Json::Null => true,
            _ => false,
        }
    }

    /// A copy of the value.
    pub fn copy(&self) -> (r: Json)
        ensures
            r@ == self@,
        decreases self,
    {
        match self {
            Json::Null => Json::Null,
            Json::Bool(b) => Json::Bool(*b),
            Json::Number(n) => Json::Number(
                match n {
                    Number::PosInt(k) => Number::PosInt(*k),
                    Number::NegInt(k) => Number::NegInt(*k),
                    Number::Float(t) => Number::Float(t.clone()),
                },
            ),
            Json::Str(s) => Json::Str(s.clone()),
            Json::Array(items) => {
                let mut out: Vec<Json> = Vec::new();
                let mut i: usize = 0;
                while i < items.len()
                    invariant
                        *self == Json::Array(*items),
                        i <= items.len(),
                        out@.len() == i,
                        forall|j: int| 0 <= j < i ==> #[trigger] out@[j]@ == items@[j]@,
                    decreases items.len() - i,
                {
                    proof {
                        assert(decreases_to!(*self => self->Array_0));
                        assert(decreases_to!(*items => items@));
                        assert(decreases_to!(items@ => items@[i as int]));
                        assert(decreases_to!(*self => items@[i as int]));
                    }
                    out.push(items[i].copy());
                    i = i + 1;
                }
                let r = Json::Array(out);
                proof {
                    lemma_views_index(out@);
                    lemma_views_index(items@);
                }
                assert(r@->Array_0 =~= self@->Array_0);
                r
            },
            Json::Object(members) => {
                let mut out: Vec<(String, Json)> = Vec::new();
                let mut i: usize = 0;
                while i < members.len()
                    invariant
                        *self == Json::Object(*members),
                        i <= members.len(),
                        out@.len() == i,
                        forall|j: int|
                            0 <= j < i ==> #[trigger] out@[j].0@ == members@[j].0@ && out@[j].1@
                                == members@[j].1@,
                    decreases members.len() - i,
                {
                    proof {
                        assert(decreases_to!(*self => self->Object_0));
                        assert(decreases_to!(*members => members@));
                        assert(decreases_to!(members@ => members@[i as int]));
                        assert(decreases_to!(members@[i as int] => members@[i as int].1));
                        assert(decreases_to!(*self => members@[i as int].1));
                    }
                    out.push((members[i].0.clone(), members[i].1.copy()));
                    i = i + 1;
                }
                let r = Json::Object(out);
                proof {
                    lemma_member_views_index(out@);
                    lemma_member_views_index(members@);
                }
                assert(r@->Object_0 =~= self@->Object_0);
                r
            },
        }
    }
}

} // verus!
