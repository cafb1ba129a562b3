//! Path-addressed mutation of the state document, and the keyed store that keeps it.
use vstd::prelude::*;

use crate::json::{
    lemma_put, find_key, get_spec, key_index, lemma_key_index, lemma_member_views_eq, lemma_member_views_index,
    member, member_views, members_of, put, put_member, unique_keys, Json, JsonV,
};
use crate::error::ComponentError;
use crate::model::{AdaptiveCardInvocation, CardInteraction, StateUpdateOp};
use crate::text::{chars_of, push_char};

verus! {

/// `s` cut at every `sep`, as `str::split` cuts it: never empty, and empty pieces kept.
pub open spec fn split_on(s: Seq<char>, sep: char) -> Seq<Seq<char>>
    decreases s.len(),
{
    if s.len() == 0 {
        seq![Seq::empty()]
    } else {
        let init = split_on(s.drop_last(), sep);
        if s.last() == sep {
            init.push(Seq::empty())
        } else {
            init.update(init.len() - 1, init.last().push(s.last()))
        }
    }
}

pub proof fn lemma_split_nonempty(s: Seq<char>, sep: char)
    ensures
        split_on(s, sep).len() >= 1,
    decreases s.len(),
{
    if s.len() > 0 {
        lemma_split_nonempty(s.drop_last(), sep);
    }
}

/// The texts of `v`.
pub open spec fn texts(v: Seq<String>) -> Seq<Seq<char>> {
    v.map_values(|x: String| x@)
}

/// The dot-separated segments of `path`.
pub fn split_path(path: &str) -> (r: Vec<String>)
    ensures
        texts(r@) == split_on(path@, '.'),
        r@.len() >= 1,
{
    let cs = chars_of(path);
    let mut out: Vec<String> = Vec::new();
    out.push(String::new());
    let mut i: usize = 0;
    while i < cs.len()
        invariant
            cs@ == path@,
            i <= cs@.len(),
            out@.len() >= 1,
            texts(out@) == split_on(cs@.subrange(0, i as int), '.'),
        decreases cs.len() - i,
    {
        let ghost pre = cs@.subrange(0, i as int);
        assert(cs@.subrange(0, i + 1).drop_last() == pre);
        if cs[i] == '.' {
            out.push(String::new());
            assert(texts(out@) =~= split_on(cs@.subrange(0, i + 1), '.'));
        } else {
            let last = out.len() - 1;
            let mut seg = out.remove(last);
            push_char(&mut seg, cs[i]);
            out.push(seg);
            assert(texts(out@) =~= split_on(cs@.subrange(0, i + 1), '.'));
        }
        i = i + 1;
    }
    assert(cs@.subrange(0, cs@.len() as int) == cs@);
    out
}

/// The state document after `Set(path, value)`: every intermediate segment is made an object
/// (what was there, when not an object, is dropped), and the last one is assigned.
pub open spec fn set_spec(v: JsonV, path: Seq<Seq<char>>, value: JsonV) -> JsonV
    decreases path.len(),
{
    if path.len() == 0 {
        value
    } else if path.len() == 1 {
        JsonV::Object(put(members_of(v), path[0], value))
    } else {
        let m = members_of(v);
        let child = match member(m, path[0]) {
            Some(c) => c,
            None => JsonV::Object(Seq::empty()),
        };
        JsonV::Object(put(m, path[0], set_spec(child, path.drop_first(), value)))
    }
}

/// `existing` with each member of `update` put in turn.
pub open spec fn merge_members(
    existing: Seq<(Seq<char>, JsonV)>,
    update: Seq<(Seq<char>, JsonV)>,
) -> Seq<(Seq<char>, JsonV)>
    decreases update.len(),
{
    if update.len() == 0 {
        existing
    } else {
        merge_members(put(existing, update[0].0, update[0].1), update.drop_first())
    }
}

/// The value at the last segment of a `Merge`: a shallow union, new keys winning, when both
/// the old and the new value are objects; the new value otherwise.
pub open spec fn merged(old: Option<JsonV>, value: JsonV) -> JsonV {
    match (old, value) {
        (Some(JsonV::Object(e)), JsonV::Object(u)) => JsonV::Object(merge_members(e, u)),
        _ => value,
    }
}

/// The state document after `Merge(path, value)`.
pub open spec fn merge_spec(v: JsonV, path: Seq<Seq<char>>, value: JsonV) -> JsonV
    decreases path.len(),
{
    if path.len() == 0 {
        value
    } else if path.len() == 1 {
        let m = members_of(v);
        JsonV::Object(put(m, path[0], merged(member(m, path[0]), value)))
    } else {
        let m = members_of(v);
        let child = match member(m, path[0]) {
            Some(c) => c,
            None => JsonV::Object(Seq::empty()),
        };
        JsonV::Object(put(m, path[0], merge_spec(child, path.drop_first(), value)))
    }
}

/// The state document after `Delete(path)`: the last key is removed when every intermediate
/// segment resolves through an existing object, and nothing changes otherwise.
pub open spec fn delete_spec(v: JsonV, path: Seq<Seq<char>>) -> JsonV
    decreases path.len(),
{
    if path.len() == 0 {
        JsonV::Null
    } else {
        match v {
            JsonV::Object(m) => match key_index(m, path[0]) {
                Some(i) => if path.len() == 1 {
                    JsonV::Object(m.remove(i))
                } else {
                    JsonV::Object(m.update(i, (path[0], delete_spec(m[i].1, path.drop_first()))))
                },
                None => v,
            },
            _ => v,
        }
    }
}

/// The value that `path` reaches through objects only.
pub open spec fn path_get(v: JsonV, path: Seq<Seq<char>>) -> Option<JsonV>
    decreases path.len(),
{
    if path.len() == 0 {
        Some(v)
    } else {
        match get_spec(v, path[0]) {
            Some(c) => path_get(c, path.drop_first()),
            None => None,
        }
    }
}

/// The state document after one update.
pub open spec fn update_spec(v: JsonV, op: StateUpdateOp) -> JsonV {
    match op {
        StateUpdateOp::Assign { path, value } => set_spec(v, split_on(path@, '.'), value@),
        StateUpdateOp::Merge { path, value } => merge_spec(v, split_on(path@, '.'), value@),
        StateUpdateOp::Delete { path } => delete_spec(v, split_on(path@, '.')),
    }
}

/// The state document after the updates, applied in order.
pub open spec fn updates_spec(v: JsonV, ops: Seq<StateUpdateOp>) -> JsonV
    decreases ops.len(),
{
    if ops.len() == 0 {
        v
    } else {
        updates_spec(update_spec(v, ops[0]), ops.drop_first())
    }
}

/// The members of `v` when it is an object, and none otherwise.
fn into_members(v: Json) -> (r: Vec<(String, Json)>)
    ensures
        member_views(r@) == members_of(v@),
{
    match v {
        Json::Object(m) => m,
        _ => {
            let r: Vec<(String, Json)> = Vec::new();
            assert(member_views(r@) =~= Seq::empty());
            r
        },
    }
}

/// Takes out the value of member `i`, leaving `Null` in its place.
fn take_member(members: &mut Vec<(String, Json)>, i: usize) -> (r: (String, Json))
    requires
        i < old(members)@.len(),
    ensures
        r == old(members)@[i as int],
        final(members)@ == old(members)@.update(i as int, (r.0, Json::Null)),
{
    let e = members.remove(i);
    let k = e.0;
    let v = e.1;
    let kk = k.clone();
    members.insert(i, (kk, Json::Null));
    assert(final(members)@ =~= old(members)@.update(i as int, (k, Json::Null)));
    (k, v)
}

fn set_at(v: Json, segs: &Vec<String>, i: usize, value: Json) -> (r: Json)
    requires
        i < segs@.len(),
    ensures
        r@ == set_spec(v@, texts(segs@).subrange(i as int, segs@.len() as int), value@),
    decreases segs.len() - i,
{
    let ghost p = texts(segs@).subrange(i as int, segs@.len() as int);
    let ghost vv = v@;
    let ghost m = members_of(v@);
    let mut members = into_members(v);
    proof {
        lemma_member_views_index(members@);
        lemma_key_index(m, p[0]);
        assert(p[0] == segs@[i as int]@);
    }
    if i + 1 == segs.len() {
        let r = put_member(members, segs[i].clone(), value);
        return Json::Object(r);
    }
    assert(p.drop_first() =~= texts(segs@).subrange(i + 1, segs@.len() as int));
    match find_key(&members, segs[i].as_str()) {
        Some(j) => {
            let (k, c) = take_member(&mut members, j);
            let nc = set_at(c, segs, i + 1, value);
            let _ = members.remove(j);
            members.insert(j, (k, nc));
            proof {
                lemma_member_views_eq(members@, m.update(j as int, (p[0], nc@)));
            }
            Json::Object(members)
        },
        None => {
            let e: Vec<(String, Json)> = Vec::new();
            assert(member_views(e@) =~= Seq::empty());
            let nc = set_at(Json::Object(e), segs, i + 1, value);
            Json::Object(put_member(members, segs[i].clone(), nc))
        },
    }
}

pub(crate) fn merge_members_exec(existing: Vec<(String, Json)>, update: Vec<(String, Json)>) -> (r: Vec<
    (String, Json),
>)
    ensures
        member_views(r@) == merge_members(member_views(existing@), member_views(update@)),
{
    let mut acc = existing;
    let mut rest = update;
    while rest.len() > 0
        invariant
            merge_members(member_views(acc@), member_views(rest@)) == merge_members(
                member_views(existing@),
                member_views(update@),
            ),
        decreases rest.len(),
    {
        proof {
            lemma_member_views_index(rest@);
        }
        let ghost before = member_views(rest@);
        let (k, v) = rest.remove(0);
        proof {
            lemma_member_views_eq(rest@, before.drop_first());
        }
        acc = put_member(acc, k, v);
    }
    proof {
        assert(member_views(rest@) =~= Seq::empty());
    }
    acc
}

fn merge_at(v: Json, segs: &Vec<String>, i: usize, value: Json) -> (r: Json)
    requires
        i < segs@.len(),
    ensures
        r@ == merge_spec(v@, texts(segs@).subrange(i as int, segs@.len() as int), value@),
    decreases segs.len() - i,
{
    let ghost p = texts(segs@).subrange(i as int, segs@.len() as int);
    let ghost m = members_of(v@);
    let mut members = into_members(v);
    proof {
        lemma_member_views_index(members@);
        lemma_key_index(m, p[0]);
        assert(p[0] == segs@[i as int]@);
    }
    if i + 1 == segs.len() {
        match find_key(&members, segs[i].as_str()) {
            Some(j) => {
                if members[j].1.is_object() && value.is_object() {
                    let (k, c) = take_member(&mut members, j);
                    let cm = into_members(c);
                    let um = into_members(value);
                    let mm = merge_members_exec(cm, um);
                    let _ = members.remove(j);
                    members.insert(j, (k, Json::Object(mm)));
                    proof {
                        lemma_member_views_eq(
                            members@,
                            m.update(j as int, (p[0], merged(member(m, p[0]), value@))),
                        );
                    }
                    return Json::Object(members);
                }
                return Json::Object(put_member(members, segs[i].clone(), value));
            },
            None => {
                return Json::Object(put_member(members, segs[i].clone(), value));
            },
        }
    }
    assert(p.drop_first() =~= texts(segs@).subrange(i + 1, segs@.len() as int));
    match find_key(&members, segs[i].as_str()) {
        Some(j) => {
            let (k, c) = take_member(&mut members, j);
            let nc = merge_at(c, segs, i + 1, value);
            let _ = members.remove(j);
            members.insert(j, (k, nc));
            proof {
                lemma_member_views_eq(members@, m.update(j as int, (p[0], nc@)));
            }
            Json::Object(members)
        },
        None => {
            let e: Vec<(String, Json)> = Vec::new();
            assert(member_views(e@) =~= Seq::empty());
            let nc = merge_at(Json::Object(e), segs, i + 1, value);
            Json::Object(put_member(members, segs[i].clone(), nc))
        },
    }
}

fn delete_at(v: Json, segs: &Vec<String>, i: usize) -> (r: Json)
    requires
        i < segs@.len(),
    ensures
        r@ == delete_spec(v@, texts(segs@).subrange(i as int, segs@.len() as int)),
    decreases segs.len() - i,
{
    let ghost p = texts(segs@).subrange(i as int, segs@.len() as int);
    match v {
        Json::Object(members) => {
            let ghost m = member_views(members@);
            let mut members = members;
            proof {
                lemma_member_views_index(members@);
                lemma_key_index(m, p[0]);
                assert(p[0] == segs@[i as int]@);
            }
            match find_key(&members, segs[i].as_str()) {
                Some(j) => {
                    if i + 1 == segs.len() {
                        let _ = members.remove(j);
                        proof {
                            lemma_member_views_eq(members@, m.remove(j as int));
                        }
                        Json::Object(members)
                    } else {
                        assert(p.drop_first() =~= texts(segs@).subrange(
                            i + 1,
                            segs@.len() as int,
                        ));
                        let (k, c) = take_member(&mut members, j);
                        let nc = delete_at(c, segs, i + 1);
                        let _ = members.remove(j);
                        members.insert(j, (k, nc));
                        proof {
                            lemma_member_views_eq(members@, m.update(j as int, (p[0], nc@)));
                        }
                        Json::Object(members)
                    }
                },
                None => Json::Object(members),
            }
        },
        other => other,
    }
}

/// Assigns `value` at the dot-separated `path` of the state document.
pub fn set_path(state: Json, path: &str, value: Json) -> (r: Json)
    ensures
        r@ == set_spec(state@, split_on(path@, '.'), value@),
{
    let segs = split_path(path);
    assert(texts(segs@).subrange(0, segs@.len() as int) =~= texts(segs@));
    set_at(state, &segs, 0, value)
}

/// Merges `value` into the dot-separated `path` of the state document.
pub fn merge_path(state: Json, path: &str, value: Json) -> (r: Json)
    ensures
        r@ == merge_spec(state@, split_on(path@, '.'), value@),
{
    let segs = split_path(path);
    assert(texts(segs@).subrange(0, segs@.len() as int) =~= texts(segs@));
    merge_at(state, &segs, 0, value)
}

/// Removes the dot-separated `path` from the state document.
pub fn delete_path(state: Json, path: &str) -> (r: Json)
    ensures
        r@ == delete_spec(state@, split_on(path@, '.')),
{
    let segs = split_path(path);
    assert(texts(segs@).subrange(0, segs@.len() as int) =~= texts(segs@));
    delete_at(state, &segs, 0)
}

/// Applies the updates in order, as one batch, to the state document.
pub fn apply_updates(state: &mut Json, updates: &[StateUpdateOp])
    ensures
        final(state)@ == updates_spec(old(state)@, updates@),
        crate::json::wf(old(state)@) && (forall|i: int|
            0 <= i < updates@.len() ==> op_wf(#[trigger] updates@[i])) ==> crate::json::wf(
            final(state)@,
        ),
{
    proof {
        if crate::json::wf(old(state)@) && (forall|i: int|
            0 <= i < updates@.len() ==> op_wf(#[trigger] updates@[i])) {
            lemma_updates_wf(old(state)@, updates@);
        }
    }
    let mut current = state.copy();
    let mut i: usize = 0;
    assert(updates@.subrange(0, updates@.len() as int) =~= updates@);
    while i < updates.len()
        invariant
            i <= updates@.len(),
            updates_spec(old(state)@, updates@) == updates_spec(
                current@,
                updates@.subrange(i as int, updates@.len() as int),
            ),
        decreases updates.len() - i,
    {
        let ghost rest = updates@.subrange(i as int, updates@.len() as int);
        assert(rest.drop_first() =~= updates@.subrange(i + 1, updates@.len() as int));
        current = match &updates[i] {
            StateUpdateOp::Assign { path, value } => set_path(current, path.as_str(), value.copy()),
            StateUpdateOp::Merge { path, value } => merge_path(current, path.as_str(), value.copy()),
            StateUpdateOp::Delete { path } => delete_path(current, path.as_str()),
        };
        i = i + 1;
    }
    assert(updates@.subrange(i as int, updates@.len() as int) =~= Seq::empty());
    *state = current;
}

/// The store key for a node id, a card instance id, or neither: the node id wins.
pub open spec fn state_key_spec(node_id: Option<Seq<char>>, card_instance_id: Option<Seq<char>>) -> Seq<char> {
    match node_id {
        Some(n) => "adaptive-card:node:"@ + n,
        None => match card_instance_id {
            Some(c) => "adaptive-card:card:"@ + c,
            None => "adaptive-card:default"@,
        },
    }
}

pub open spec fn opt_text(s: Option<String>) -> Option<Seq<char>> {
    match s {
        Some(t) => Some(t@),
        None => None,
    }
}

pub open spec fn interaction_card(interaction: Option<&CardInteraction>) -> Option<Seq<char>> {
    match interaction {
        Some(i) => Some(i.card_instance_id@),
        None => None,
    }
}

fn concat(a: &str, b: &str) -> (r: String)
    ensures
        r@ == a@ + b@,
{
    let mut s = a.to_string();
    s.append(b);
    s
}

/// The key under which the state document of this invocation is kept.
pub fn state_key_for(inv: &AdaptiveCardInvocation, interaction: Option<&CardInteraction>) -> (r:
    String)
    ensures
        r@ == state_key_spec(opt_text(inv.node_id), interaction_card(interaction)),
{
    proof {
        reveal_strlit("adaptive-card:node:");
        reveal_strlit("adaptive-card:card:");
        reveal_strlit("adaptive-card:default");
    }
    match &inv.node_id {
        Some(n) => concat("adaptive-card:node:", n.as_str()),
        None => match interaction {
            Some(i) => concat("adaptive-card:card:", i.card_instance_id.as_str()),
            None => "adaptive-card:default".to_string(),
        },
    }
}

/// A keyed store of state documents, each kept whole. Its contents are `contents()`: one
/// document per key.
#[derive(Debug)]
pub struct StateStore {
    entries: Vec<(String, Json)>,
}

impl StateStore {
    #[verifier::type_invariant]
    spec fn keys_unique(&self) -> bool {
        unique_keys(member_views(self.entries@))
    }

    pub closed spec fn contents(&self) -> Seq<(Seq<char>, JsonV)> {
        member_views(self.entries@)
    }

    pub fn new() -> (r: StateStore)
        ensures
            r.contents() == Seq::<(Seq<char>, JsonV)>::empty(),
    {
        let e: Vec<(String, Json)> = Vec::new();
        assert(member_views(e@) =~= Seq::empty());
        StateStore { entries: e }
    }

    /// The number of keys kept.
    pub fn len(&self) -> (r: usize)
        ensures
            r == self.contents().len(),
    {
        proof {
            lemma_member_views_index(self.entries@);
        }
        self.entries.len()
    }

    /// The document kept under `key`.
    pub fn read(&self, key: &str) -> (r: Option<Json>)
        ensures
            r matches Some(v) ==> member(self.contents(), key@) == Some(v@),
            r is None ==> member(self.contents(), key@) is None,
            unique_keys(self.contents()),
    {
        proof {
            use_type_invariant(self);
            lemma_member_views_index(self.entries@);
            lemma_key_index(self.contents(), key@);
        }
        match find_key(&self.entries, key) {
            Some(i) => Some(self.entries[i].1.copy()),
            None => None,
        }
    }

    /// Keeps `doc` under `key`, replacing what was there.
    pub fn write(&mut self, key: &str, doc: Json)
        ensures
            final(self).contents() == put(old(self).contents(), key@, doc@),
            member(final(self).contents(), key@) == Some(doc@),
    {
        proof {
            use_type_invariant(&*self);
        }
        let ghost m = self.contents();
        let ghost dv = doc@;
        proof {
            lemma_member_views_index(self.entries@);
            lemma_key_index(m, key@);
            lemma_put(m, key@, dv);
            crate::json::lemma_put_unique(m, key@, dv);
        }
        let entries = copy_members(&self.entries);
        *self = StateStore { entries: put_member(entries, key.to_string(), doc) };
    }

    /// Drops what is kept under `key`; an absent key is left absent.
    pub fn delete(&mut self, key: &str)
        ensures
            final(self).contents() == remove_key(old(self).contents(), key@),
            member(final(self).contents(), key@) is None,
    {
        proof {
            use_type_invariant(&*self);
            lemma_member_views_index(self.entries@);
            lemma_key_index(self.contents(), key@);
        }
        match find_key(&self.entries, key) {
            Some(i) => {
                let ghost m = self.contents();
                proof {
                    crate::json::lemma_remove_unique(m, i as int);
                }
                let mut entries = copy_members(&self.entries);
                proof {
                    lemma_member_views_index(entries@);
                }
                let _ = entries.remove(i);
                proof {
                    lemma_member_views_eq(entries@, m.remove(i as int));
                }
                *self = StateStore { entries };
            },
            None => {},
        }
    }
}

/// A copy of the members.
fn copy_members(members: &Vec<(String, Json)>) -> (r: Vec<(String, Json)>)
    ensures
        member_views(r@) == member_views(members@),
        r@.len() == members@.len(),
{
    proof {
        lemma_member_views_index(members@);
    }
    let mut out: Vec<(String, Json)> = Vec::new();
    let mut i: usize = 0;
    while i < members.len()
        invariant
            i <= members@.len(),
            out@.len() == i,
            member_views(members@).len() == members@.len(),
            forall|j: int| 0 <= j < members@.len() ==> #[trigger] member_views(members@)[j] == (members@[j].0@, members@[j].1@),
            forall|j: int| 0 <= j < i ==> #[trigger] out@[j].0@ == members@[j].0@ && out@[j].1@ == members@[j].1@,
        decreases members.len() - i,
    {
        out.push((members[i].0.clone(), members[i].1.copy()));
        i = i + 1;
    }
    proof {
        lemma_member_views_eq(out@, member_views(members@));
    }
    out
}

/// `members` without the first member named `key`.
pub open spec fn remove_key(members: Seq<(Seq<char>, JsonV)>, key: Seq<char>) -> Seq<
    (Seq<char>, JsonV),
> {
    match key_index(members, key) {
        Some(i) => members.remove(i),
        None => members,
    }
}

/// Reads the document kept under `key`; an absent key is no error.
pub fn read_bytes(store: &StateStore, key: &str) -> (r: Result<Option<Json>, ComponentError>)
    ensures
        r matches Ok(found) && (found matches Some(v) ==> member(store.contents(), key@) == Some(
            v@,
        )) && (found is None ==> member(store.contents(), key@) is None),
{
    Ok(store.read(key))
}

/// Keeps `doc` under `key` as one unit.
pub fn write_state(store: &mut StateStore, key: &str, doc: Json) -> (r: Result<(), ComponentError>)
    ensures
        r is Ok,
        final(store).contents() == put(old(store).contents(), key@, doc@),
        member(final(store).contents(), key@) == Some(doc@),
{
    store.write(key, doc);
    Ok(())
}

/// Drops what is kept under `key`.
pub fn delete_state(store: &mut StateStore, key: &str) -> (r: Result<(), ComponentError>)
    ensures
        r is Ok,
        final(store).contents() == remove_key(old(store).contents(), key@),
        member(final(store).contents(), key@) is None,
{
    store.delete(key);
    Ok(())
}

/// `c` in ASCII lower case.
pub open spec fn ascii_lower(c: char) -> char {
    if 'A' <= c && c <= 'Z' {
        ((c as u32) + 32) as char
    } else {
        c
    }
}

pub open spec fn lower_text(s: Seq<char>) -> Seq<char> {
    s.map_values(|c: char| ascii_lower(c))
}

/// Whether a backend error code says that the key is absent: `not-found`, `not_found`,
/// `notfound`, `state.read.miss`, or any code holding `read.miss`, in any ASCII case.
pub open spec fn not_found_code(code: Seq<char>) -> bool {
    let n = lower_text(code);
    n == "not-found"@ || n == "not_found"@ || n == "notfound"@ || n == "state.read.miss"@
        || crate::text::contains(n, "read.miss"@)
}

fn lower_char(c: char) -> (r: char)
    ensures
        r == ascii_lower(c),
{
    if 'A' <= c && c <= 'Z' {
        let u = (c as u32) + 32;
        proof {
            vstd::utf8::char_u32_cast(c, c as u32);
        }
        match crate::json_read::char_from_code(u) {
            Some(l) => {
                proof {
                    vstd::utf8::char_u32_cast(l, u);
                }
                l
            },
            None => c,
        }
    } else {
        c
    }
}

/// `s` in ASCII lower case.
pub fn lower_string(s: &str) -> (r: String)
    ensures
        r@ == lower_text(s@),
{
    let cs = chars_of(s);
    let mut low: Vec<char> = Vec::new();
    let mut i: usize = 0;
    while i < cs.len()
        invariant
            cs@ == s@,
            i <= cs@.len(),
            low@ == lower_text(cs@.subrange(0, i as int)),
        decreases cs.len() - i,
    {
        low.push(lower_char(cs[i]));
        assert(low@ =~= lower_text(cs@.subrange(0, i + 1)));
        i = i + 1;
    }
    assert(cs@.subrange(0, i as int) =~= cs@);
    assert(low@.subrange(0, low@.len() as int) =~= low@);
    crate::text::string_of(low.as_slice(), 0, low.len())
}

/// Whether a backend error code says that the key is absent.
pub fn is_not_found(code: &str) -> (r: bool)
    ensures
        r == not_found_code(code@),
{
    let n = lower_string(code);
    let low = chars_of(n.as_str());
    let miss = chars_of("read.miss");
    proof {
        reveal_strlit("read.miss");
    }
    let has_miss = crate::text::find_first(low.as_slice(), 0, miss.as_slice()).is_some();
    proof {
        crate::render::lemma_first_at_contains(low@, miss@);
    }
    crate::json::same_text(n.as_str(), "not-found") || crate::json::same_text(n.as_str(), "not_found")
        || crate::json::same_text(n.as_str(), "notfound") || crate::json::same_text(
        n.as_str(),
        "state.read.miss",
    ) || has_miss
}


/// Loads the stored document into `inv.state` when the invocation supplied none (a `Null`
/// state), and returns what was loaded. A supplied state is never replaced.
pub fn load_state_if_missing(
    inv: &mut AdaptiveCardInvocation,
    interaction: Option<&CardInteraction>,
    store: &StateStore,
) -> (r: Result<Option<Json>, ComponentError>)
    ensures
        r matches Ok(loaded) && ({
            let key = state_key_spec(opt_text(old(inv).node_id), interaction_card(interaction));
            if old(inv).state@ is Null {
                &&& (loaded matches Some(v) ==> member(store.contents(), key) == Some(v@)
                    && final(inv).state@ == v@)
                &&& (loaded is None ==> member(store.contents(), key) is None
                    && final(inv).state@ == old(inv).state@)
            } else {
                loaded is None && final(inv).state@ == old(inv).state@
            }
        }),
        final(inv).node_id == old(inv).node_id,
        final(inv).payload@ == old(inv).payload@,
        final(inv).session@ == old(inv).session@,
        final(inv).card_source == old(inv).card_source,
        final(inv).card_spec == old(inv).card_spec,
        final(inv).interaction == old(inv).interaction,
        final(inv).envelope == old(inv).envelope,
        final(inv).mode == old(inv).mode,
        final(inv).validation_mode == old(inv).validation_mode,
{
    if !inv.state.is_null() {
        return Ok(None);
    }
    let key = state_key_for(inv, interaction);
    let loaded = store.read(key.as_str());
    match &loaded {
        Some(v) => {
            inv.state = v.copy();
        },
        None => {},
    }
    Ok(loaded)
}

/// Writes the state document under the invocation's key; a `Null` document deletes the key.
pub fn persist_state(
    inv: &AdaptiveCardInvocation,
    interaction: Option<&CardInteraction>,
    state: &Json,
    store: &mut StateStore,
) -> (r: Result<(), ComponentError>)
    ensures
        r is Ok,
        ({
            let key = state_key_spec(opt_text(inv.node_id), interaction_card(interaction));
            if state@ is Null {
                final(store).contents() == remove_key(old(store).contents(), key) && member(
                    final(store).contents(),
                    key,
                ) is None
            } else {
                final(store).contents() == put(old(store).contents(), key, state@) && member(
                    final(store).contents(),
                    key,
                ) == Some(state@)
            }
        }),
{
    let key = state_key_for(inv, interaction);
    if state.is_null() {
        store.delete(key.as_str());
    } else {
        store.write(key.as_str(), state.copy());
    }
    Ok(())
}

/// Updates never turn a document into null.
pub proof fn lemma_updates_never_null(v: JsonV, ops: Seq<StateUpdateOp>)
    requires
        !(v is Null),
    ensures
        !(updates_spec(v, ops) is Null),
    decreases ops.len(),
{
    if ops.len() > 0 {
        match ops[0] {
            StateUpdateOp::Assign { path, value } => lemma_split_nonempty(path@, '.'),
            StateUpdateOp::Merge { path, value } => lemma_split_nonempty(path@, '.'),
            StateUpdateOp::Delete { path } => lemma_split_nonempty(path@, '.'),
        }
        lemma_updates_never_null(update_spec(v, ops[0]), ops.drop_first());
    }
}

proof fn lemma_path_get_empty(p: Seq<Seq<char>>)
    requires
        p.len() >= 1,
    ensures
        path_get(JsonV::Object(Seq::empty()), p) is None,
{
    lemma_key_index(Seq::<(Seq<char>, JsonV)>::empty(), p[0]);
}

/// After `Set(p, x)`, the path `p` reaches `x`, whatever stood on the way before.
pub proof fn lemma_set_then_get(v: JsonV, p: Seq<Seq<char>>, x: JsonV)
    requires
        p.len() >= 1,
    ensures
        path_get(set_spec(v, p, x), p) == Some(x),
    decreases p.len(),
{
    let m = members_of(v);
    if p.len() == 1 {
        lemma_put(m, p[0], x);
        assert(path_get(x, p.drop_first()) == Some(x));
    } else {
        let child = match member(m, p[0]) {
            Some(c) => c,
            None => JsonV::Object(Seq::empty()),
        };
        lemma_set_then_get(child, p.drop_first(), x);
        lemma_put(m, p[0], set_spec(child, p.drop_first(), x));
    }
}

/// After `Merge(p, x)`, the path `p` reaches the merge of what it reached before with `x`.
pub proof fn lemma_merge_then_get(v: JsonV, p: Seq<Seq<char>>, x: JsonV)
    requires
        p.len() >= 1,
    ensures
        path_get(merge_spec(v, p, x), p) == Some(merged(path_get(v, p), x)),
    decreases p.len(),
{
    let m = members_of(v);
    if p.len() == 1 {
        lemma_put(m, p[0], merged(member(m, p[0]), x));
        let r = merged(member(m, p[0]), x);
        assert(path_get(r, p.drop_first()) == Some(r));
        match v {
            JsonV::Object(_) => {
                assert(path_get(v, p) == path_get(member(m, p[0])->0, p.drop_first()) || member(
                    m,
                    p[0],
                ) is None);
            },
            _ => {
                lemma_key_index(m, p[0]);
            },
        }
    } else {
        let child = match member(m, p[0]) {
            Some(c) => c,
            None => JsonV::Object(Seq::empty()),
        };
        lemma_merge_then_get(child, p.drop_first(), x);
        lemma_put(m, p[0], merge_spec(child, p.drop_first(), x));
        if member(m, p[0]) is None {
            lemma_path_get_empty(p.drop_first());
            if !(v is Object) {
                lemma_key_index(m, p[0]);
            }
        }
    }
}

/// The members that a `Merge` starts from: those of the object that `p` reaches, or none.
pub open spec fn object_at(v: JsonV, p: Seq<Seq<char>>) -> Seq<(Seq<char>, JsonV)> {
    match path_get(v, p) {
        Some(JsonV::Object(o)) => o,
        _ => Seq::empty(),
    }
}

/// `Merge(p, {a: x})` then `Merge(p, {b: y})` leaves at `p` the object that was there (or an
/// empty one) with `a` set to `x` and then `b` set to `y`; from no object, exactly `{a: x, b: y}`.
pub proof fn lemma_merge_twice(
    v: JsonV,
    p: Seq<Seq<char>>,
    a: Seq<char>,
    x: JsonV,
    b: Seq<char>,
    y: JsonV,
)
    requires
        p.len() >= 1,
    ensures
        path_get(
            merge_spec(merge_spec(v, p, JsonV::Object(seq![(a, x)])), p, JsonV::Object(seq![(b, y)])),
            p,
        ) == Some(JsonV::Object(put(put(object_at(v, p), a, x), b, y))),
        a != b && !(path_get(v, p) matches Some(JsonV::Object(_))) ==> path_get(
            merge_spec(merge_spec(v, p, JsonV::Object(seq![(a, x)])), p, JsonV::Object(seq![(b, y)])),
            p,
        ) == Some(JsonV::Object(seq![(a, x), (b, y)])),
{
    let ua = seq![(a, x)];
    let ub = seq![(b, y)];
    let v1 = merge_spec(v, p, JsonV::Object(ua));
    lemma_merge_then_get(v, p, JsonV::Object(ua));
    lemma_merge_then_get(v1, p, JsonV::Object(ub));
    let o = object_at(v, p);
    assert(ua.drop_first() =~= Seq::<(Seq<char>, JsonV)>::empty());
    assert(ub.drop_first() =~= Seq::<(Seq<char>, JsonV)>::empty());
    assert(ua[0] == (a, x));
    assert(merge_members(put(o, a, x), ua.drop_first()) == put(o, a, x));
    assert(merge_members(o, ua) == put(o, a, x));
    assert(ub[0] == (b, y));
    assert(merge_members(put(put(o, a, x), b, y), ub.drop_first()) == put(put(o, a, x), b, y));
    assert(merge_members(put(o, a, x), ub) == put(put(o, a, x), b, y));
    if !(path_get(v, p) matches Some(JsonV::Object(_))) {
        let e = Seq::<(Seq<char>, JsonV)>::empty();
        lemma_key_index(e, a);
        assert(put(e, a, x) =~= ua);
        lemma_key_index(ua, b);
        if a != b {
            assert(put(ua, b, y) =~= seq![(a, x), (b, y)]);
        }
    }
}

/// `Delete(p)` changes nothing where `p` reaches nothing; so deleting twice is deleting once.
pub proof fn lemma_delete_absent(v: JsonV, p: Seq<Seq<char>>)
    requires
        p.len() >= 1,
        path_get(v, p) is None,
    ensures
        delete_spec(v, p) == v,
    decreases p.len(),
{
    if let JsonV::Object(m) = v {
        lemma_key_index(m, p[0]);
        if let Some(i) = key_index(m, p[0]) {
            if p.len() == 1 {
                assert(path_get(m[i].1, p.drop_first()) == Some(m[i].1));
            } else {
                lemma_delete_absent(m[i].1, p.drop_first());
                assert(m.update(i, (p[0], m[i].1)) =~= m);
            }
        }
    }
}

proof fn lemma_members_of_wf(v: JsonV)
    requires
        crate::json::wf(v),
    ensures
        crate::json::wf(JsonV::Object(members_of(v))),
{
    if !(v is Object) {
        assert(members_of(v) =~= Seq::<(Seq<char>, JsonV)>::empty());
    }
}

/// `Set` keeps a document well formed.
pub proof fn lemma_set_wf(v: JsonV, p: Seq<Seq<char>>, x: JsonV)
    requires
        crate::json::wf(v),
        crate::json::wf(x),
    ensures
        crate::json::wf(set_spec(v, p, x)),
    decreases p.len(),
{
    if p.len() >= 1 {
        let m = members_of(v);
        lemma_members_of_wf(v);
        if p.len() == 1 {
            crate::json::lemma_put_wf(m, p[0], x);
        } else {
            crate::json::lemma_member_wf(m, p[0]);
            let child = match member(m, p[0]) {
                Some(c) => c,
                None => JsonV::Object(Seq::empty()),
            };
            lemma_set_wf(child, p.drop_first(), x);
            crate::json::lemma_put_wf(m, p[0], set_spec(child, p.drop_first(), x));
        }
    }
}

pub proof fn lemma_merge_members_wf(e: Seq<(Seq<char>, JsonV)>, u: Seq<(Seq<char>, JsonV)>)
    requires
        crate::json::wf(JsonV::Object(e)),
        forall|i: int| 0 <= i < u.len() ==> crate::json::wf(#[trigger] u[i].1),
    ensures
        crate::json::wf(JsonV::Object(merge_members(e, u))),
    decreases u.len(),
{
    if u.len() > 0 {
        crate::json::lemma_put_wf(e, u[0].0, u[0].1);
        let rest = u.drop_first();
        assert forall|i: int| 0 <= i < rest.len() implies crate::json::wf(#[trigger] rest[i].1) by {
            assert(rest[i] == u[i + 1]);
        }
        lemma_merge_members_wf(put(e, u[0].0, u[0].1), rest);
    }
}

/// `Merge` keeps a document well formed.
pub proof fn lemma_merge_wf(v: JsonV, p: Seq<Seq<char>>, x: JsonV)
    requires
        crate::json::wf(v),
        crate::json::wf(x),
    ensures
        crate::json::wf(merge_spec(v, p, x)),
    decreases p.len(),
{
    if p.len() >= 1 {
        let m = members_of(v);
        lemma_members_of_wf(v);
        crate::json::lemma_member_wf(m, p[0]);
        if p.len() == 1 {
            let old = member(m, p[0]);
            if let (Some(JsonV::Object(e)), JsonV::Object(u)) = (old, x) {
                lemma_merge_members_wf(e, u);
            }
            crate::json::lemma_put_wf(m, p[0], merged(old, x));
        } else {
            let child = match member(m, p[0]) {
                Some(c) => c,
                None => JsonV::Object(Seq::empty()),
            };
            lemma_merge_wf(child, p.drop_first(), x);
            crate::json::lemma_put_wf(m, p[0], merge_spec(child, p.drop_first(), x));
        }
    }
}

/// `Delete` keeps a document well formed.
pub proof fn lemma_delete_wf(v: JsonV, p: Seq<Seq<char>>)
    requires
        crate::json::wf(v),
    ensures
        crate::json::wf(delete_spec(v, p)),
    decreases p.len(),
{
    if p.len() >= 1 {
        if let JsonV::Object(m) = v {
            lemma_key_index(m, p[0]);
            if let Some(i) = key_index(m, p[0]) {
                if p.len() == 1 {
                    crate::json::lemma_remove_unique(m, i);
                    let r = m.remove(i);
                    assert forall|j: int| 0 <= j < r.len() implies crate::json::wf(#[trigger] r[j].1) by {
                        if j < i {
                            assert(r[j] == m[j]);
                        } else {
                            assert(r[j] == m[j + 1]);
                        }
                    }
                } else {
                    lemma_delete_wf(m[i].1, p.drop_first());
                    let r = m.update(i, (p[0], delete_spec(m[i].1, p.drop_first())));
                    assert forall|a: int, b: int| 0 <= a < b < r.len() implies (#[trigger] r[a]).0
                        != (#[trigger] r[b]).0 by {
                        assert(r[a].0 == m[a].0 && r[b].0 == m[b].0);
                    }
                    assert forall|j: int| 0 <= j < r.len() implies crate::json::wf(#[trigger] r[j].1) by {
                        if j != i {
                            assert(r[j] == m[j]);
                        }
                    }
                }
            }
        }
    }
}

/// The values that an update writes.
pub open spec fn op_wf(op: StateUpdateOp) -> bool {
    match op {
        StateUpdateOp::Assign { path, value } => crate::json::wf(value@),
        StateUpdateOp::Merge { path, value } => crate::json::wf(value@),
        StateUpdateOp::Delete { path } => true,
    }
}

/// Updates that write well-formed values keep a well-formed document well formed.
pub proof fn lemma_updates_wf(v: JsonV, ops: Seq<StateUpdateOp>)
    requires
        crate::json::wf(v),
        forall|i: int| 0 <= i < ops.len() ==> op_wf(#[trigger] ops[i]),
    ensures
        crate::json::wf(updates_spec(v, ops)),
    decreases ops.len(),
{
    if ops.len() > 0 {
        match ops[0] {
            StateUpdateOp::Assign { path, value } => lemma_set_wf(v, split_on(path@, '.'), value@),
            StateUpdateOp::Merge { path, value } => lemma_merge_wf(v, split_on(path@, '.'), value@),
            StateUpdateOp::Delete { path } => lemma_delete_wf(v, split_on(path@, '.')),
        }
        let rest = ops.drop_first();
        assert forall|i: int| 0 <= i < rest.len() implies op_wf(#[trigger] rest[i]) by {
            assert(rest[i] == ops[i + 1]);
        }
        lemma_updates_wf(update_spec(v, ops[0]), rest);
    }
}

/// After `Delete(p)` on a well-formed document, `p` reaches nothing.
pub proof fn lemma_delete_removes(v: JsonV, p: Seq<Seq<char>>)
    requires
        p.len() >= 1,
        crate::json::wf(v),
    ensures
        path_get(delete_spec(v, p), p) is None,
    decreases p.len(),
{
    if let JsonV::Object(m) = v {
        lemma_key_index(m, p[0]);
        if let Some(i) = key_index(m, p[0]) {
            if p.len() == 1 {
                crate::json::lemma_remove_unique(m, i);
            } else {
                let m2 = m.update(i, (p[0], delete_spec(m[i].1, p.drop_first())));
                assert(crate::json::wf(m[i].1));
                lemma_delete_removes(m[i].1, p.drop_first());
                lemma_key_index(m2, p[0]);
                if let Some(t) = key_index(m2, p[0]) {
                    if t < i {
                        assert(m2[t] == m[t]);
                    }
                } else {
                    assert(m2[i].0 == p[0]);
                }
            }
        }
    }
}

/// Deleting a path twice from a well-formed document is deleting it once.
pub proof fn lemma_delete_idempotent(v: JsonV, p: Seq<Seq<char>>)
    requires
        p.len() >= 1,
        crate::json::wf(v),
    ensures
        delete_spec(delete_spec(v, p), p) == delete_spec(v, p),
{
    lemma_delete_removes(v, p);
    lemma_delete_absent(delete_spec(v, p), p);
}

/// Keys of distinct node ids, of distinct card instance ids, and of a node id and a card
/// instance id, are distinct.
pub proof fn lemma_state_keys_distinct(
    n1: Seq<char>,
    n2: Seq<char>,
    c1: Seq<char>,
    c2: Seq<char>,
    other: Option<Seq<char>>,
)
    ensures
        n1 != n2 ==> state_key_spec(Some(n1), other) != state_key_spec(Some(n2), other),
        c1 != c2 ==> state_key_spec(None, Some(c1)) != state_key_spec(None, Some(c2)),
        state_key_spec(Some(n1), other) != state_key_spec(None, Some(c1)),
{
    reveal_strlit("adaptive-card:node:");
    reveal_strlit("adaptive-card:card:");
    let pn = "adaptive-card:node:"@;
    let pc = "adaptive-card:card:"@;
    if n1 != n2 {
        let k1 = pn + n1;
        let k2 = pn + n2;
        if k1 == k2 {
            assert(k1.subrange(pn.len() as int, k1.len() as int) =~= n1);
            assert(k2.subrange(pn.len() as int, k2.len() as int) =~= n2);
        }
    }
    if c1 != c2 {
        let k1 = pc + c1;
        let k2 = pc + c2;
        if k1 == k2 {
            assert(k1.subrange(pc.len() as int, k1.len() as int) =~= c1);
            assert(k2.subrange(pc.len() as int, k2.len() as int) =~= c2);
        }
    }
    assert((pn + n1)[14] != (pc + c1)[14]);
}

/// Writing or deleting the document of one key leaves the document of every other key as it was.
pub proof fn lemma_store_isolation(
    contents: Seq<(Seq<char>, JsonV)>,
    k1: Seq<char>,
    k2: Seq<char>,
    doc: JsonV,
)
    requires
        k1 != k2,
    ensures
        member(put(contents, k1, doc), k2) == member(contents, k2),
        member(remove_key(contents, k1), k2) == member(contents, k2),
{
    lemma_put(contents, k1, doc);
    let r = remove_key(contents, k1);
    lemma_key_index(contents, k1);
    lemma_key_index(contents, k2);
    lemma_key_index(r, k2);
    if let Some(i) = key_index(contents, k1) {
        if let Some(j) = key_index(r, k2) {
            if j < i {
                assert(r[j] == contents[j]);
            } else {
                assert(r[j] == contents[j + 1]);
            }
            if let Some(t) = key_index(contents, k2) {
                if t < i {
                    assert(r[t] == contents[t]);
                } else if t > i {
                    assert(r[t - 1] == contents[t]);
                }
            }
        } else {
            if let Some(t) = key_index(contents, k2) {
                if t < i {
                    assert(r[t] == contents[t]);
                } else {
                    assert(r[t - 1] == contents[t]);
                }
            }
        }
    }
}

} // verus!
