//! The ordered candidate paths under which a card asset or catalog entry is looked for.
use vstd::prelude::*;

use crate::error::ComponentError;
use crate::json::same_text;
use crate::render::LoadedCard;
use crate::state_store::texts;
use crate::text::{chars_of, contains, find_first};

verus! {

/// A registry as `(name, path)` pairs; a name maps to its first path.
pub open spec fn pairs_view(reg: Seq<(String, String)>) -> Seq<(Seq<char>, Seq<char>)> {
    reg.map_values(|p: (String, String)| (p.0@, p.1@))
}

pub open spec fn lookup_pair(reg: Seq<(Seq<char>, Seq<char>)>, key: Seq<char>) -> Option<Seq<char>>
    decreases reg.len(),
{
    if reg.len() == 0 {
        None
    } else if reg[0].0 == key {
        Some(reg[0].1)
    } else {
        lookup_pair(reg.drop_first(), key)
    }
}

pub open spec fn registry_get(reg: Option<Seq<(Seq<char>, Seq<char>)>>, key: Seq<char>) -> Option<
    Seq<char>,
> {
    match reg {
        Some(r) => lookup_pair(r, key),
        None => None,
    }
}

/// `list` with `v` appended unless it is there.
pub open spec fn push_unique(list: Seq<Seq<char>>, v: Seq<char>) -> Seq<Seq<char>> {
    if list.contains(v) {
        list
    } else {
        list.push(v)
    }
}

pub open spec fn push_found(list: Seq<Seq<char>>, v: Option<Seq<char>>) -> Seq<Seq<char>> {
    match v {
        Some(x) => push_unique(list, x),
        None => list,
    }
}

/// `base` joined with a relative name.
pub open spec fn join_path(base: Seq<char>, name: Seq<char>) -> Seq<char> {
    if base.len() == 0 {
        name
    } else if base.last() == '/' {
        base + name
    } else {
        base + seq!['/'] + name
    }
}

/// The candidates for an asset path: the registry's mapping, the environment registry's, then
/// the path itself where it holds a `/`, or else the path under the base directory and then the
/// bare name. No candidate repeats.
pub open spec fn asset_candidates(
    path: Seq<char>,
    reg: Option<Seq<(Seq<char>, Seq<char>)>>,
    env: Option<Seq<(Seq<char>, Seq<char>)>>,
    base: Seq<char>,
) -> Seq<Seq<char>> {
    let l = push_found(push_found(Seq::empty(), registry_get(reg, path)), registry_get(env, path));
    if contains(path, "/"@) {
        push_unique(l, path)
    } else {
        push_unique(push_unique(l, join_path(base, path)), path)
    }
}

pub open spec fn opt_pairs(reg: Option<&Vec<(String, String)>>) -> Option<Seq<(Seq<char>, Seq<char>)>> {
    match reg {
        Some(r) => Some(pairs_view(r@)),
        None => None,
    }
}

fn registry_lookup(reg: Option<&Vec<(String, String)>>, key: &str) -> (r: Option<String>)
    ensures
        r matches Some(v) ==> registry_get(opt_pairs(reg), key@) == Some(v@),
        r is None ==> registry_get(opt_pairs(reg), key@) is None,
{
    match reg {
        Some(r) => {
            let ghost pv = pairs_view(r@);
            let mut i: usize = 0;
            assert(pv.subrange(0, pv.len() as int) =~= pv);
            while i < r.len()
                invariant
                    i <= r@.len(),
                    pv == pairs_view(r@),
                    opt_pairs(reg) == Some(pv),
                    lookup_pair(pv.subrange(i as int, pv.len() as int), key@) == lookup_pair(pv, key@),
                decreases r.len() - i,
            {
                let ghost rest = pv.subrange(i as int, pv.len() as int);
                assert(rest.drop_first() =~= pv.subrange(i + 1, pv.len() as int));
                assert(rest[0] == pv[i as int]);
                assert(pv[i as int] == (r@[i as int].0@, r@[i as int].1@));
                if same_text(r[i].0.as_str(), key) {
                    assert(lookup_pair(rest, key@) == Some(r@[i as int].1@));
                    assert(lookup_pair(pv, key@) == Some(r@[i as int].1@));
                    assert(opt_pairs(reg) == Some(pv));
                    return Some(r[i].1.clone());
                }
                i = i + 1;
            }
            None
        },
        None => None,
    }
}

fn push_unique_exec(list: &mut Vec<String>, v: String)
    ensures
        texts(final(list)@) == push_unique(texts(old(list)@), v@),
{
    let mut i: usize = 0;
    while i < list.len()
        invariant
            i <= list@.len(),
            forall|j: int| 0 <= j < i ==> texts(list@)[j] != v@,
        decreases list.len() - i,
    {
        if list[i] == v {
            assert(texts(list@)[i as int] == v@);
            return;
        }
        i = i + 1;
    }
    assert(!texts(list@).contains(v@));
    list.push(v);
    assert(texts(final(list)@) =~= texts(old(list)@).push(v@));
}

fn join_exec(base: &str, name: &str) -> (r: String)
    ensures
        r@ == join_path(base@, name@),
{
    let bc = chars_of(base);
    if bc.len() == 0 {
        return name.to_string();
    }
    let mut s = base.to_string();
    if bc[bc.len() - 1] != '/' {
        crate::text::push_char(&mut s, '/');
    }
    s.append(name);
    s
}

/// The candidate paths of an asset, in the order they are tried.
pub fn candidate_asset_paths(
    path: &str,
    registry: Option<&Vec<(String, String)>>,
    env_registry: Option<&Vec<(String, String)>>,
    base: &str,
) -> (r: Vec<String>)
    ensures
        texts(r@) == asset_candidates(path@, opt_pairs(registry), opt_pairs(env_registry), base@),
{
    let mut candidates: Vec<String> = Vec::new();
    assert(texts(candidates@) =~= Seq::<Seq<char>>::empty());
    match registry_lookup(registry, path) {
        Some(m) => push_unique_exec(&mut candidates, m),
        None => {},
    }
    match registry_lookup(env_registry, path) {
        Some(m) => push_unique_exec(&mut candidates, m),
        None => {},
    }
    let pc = chars_of(path);
    let slash = chars_of("/");
    proof {
        reveal_strlit("/");
    }
    let has_slash = find_first(pc.as_slice(), 0, slash.as_slice()).is_some();
    proof {
        crate::render::lemma_first_at_contains(pc@, slash@);
    }
    if has_slash {
        push_unique_exec(&mut candidates, path.to_string());
    } else {
        push_unique_exec(&mut candidates, join_exec(base, path));
        push_unique_exec(&mut candidates, path.to_string());
    }
    candidates
}

/// The mapping of a catalog name: the registry's, else the environment registry's, else the
/// catalog file's.
pub open spec fn catalog_mapping(
    name: Seq<char>,
    reg: Option<Seq<(Seq<char>, Seq<char>)>>,
    env: Option<Seq<(Seq<char>, Seq<char>)>>,
    file: Option<Seq<(Seq<char>, Seq<char>)>>,
) -> Option<Seq<char>> {
    match registry_get(reg, name) {
        Some(p) => Some(p),
        None => match registry_get(env, name) {
            Some(p) => Some(p),
            None => registry_get(file, name),
        },
    }
}

/// The candidates for a catalog name: its mapping, then `<base>/<name>.json`, then the name
/// itself where it holds a `/` or ends in `.json`. No candidate repeats.
pub open spec fn catalog_candidates(
    name: Seq<char>,
    reg: Option<Seq<(Seq<char>, Seq<char>)>>,
    env: Option<Seq<(Seq<char>, Seq<char>)>>,
    file: Option<Seq<(Seq<char>, Seq<char>)>>,
    base: Seq<char>,
) -> Seq<Seq<char>> {
    let l = push_unique(
        push_found(Seq::empty(), catalog_mapping(name, reg, env, file)),
        base + seq!['/'] + name + ".json"@,
    );
    if contains(name, "/"@) || (name.len() >= 5 && name.subrange(name.len() - 5, name.len() as int)
        == ".json"@) {
        push_unique(l, name)
    } else {
        l
    }
}

/// The candidate paths of a catalog entry, in the order they are tried.
pub fn candidate_catalog_paths(
    name: &str,
    registry: Option<&Vec<(String, String)>>,
    env_registry: Option<&Vec<(String, String)>>,
    catalog_file: Option<&Vec<(String, String)>>,
    base: &str,
) -> (r: Vec<String>)
    ensures
        texts(r@) == catalog_candidates(
            name@,
            opt_pairs(registry),
            opt_pairs(env_registry),
            opt_pairs(catalog_file),
            base@,
        ),
{
    let mut candidates: Vec<String> = Vec::new();
    assert(texts(candidates@) =~= Seq::<Seq<char>>::empty());
    let mapped = match registry_lookup(registry, name) {
        Some(p) => Some(p),
        None => match registry_lookup(env_registry, name) {
            Some(p) => Some(p),
            None => registry_lookup(catalog_file, name),
        },
    };
    match mapped {
        Some(m) => push_unique_exec(&mut candidates, m),
        None => {},
    }
    let mut guess = base.to_string();
    crate::text::push_char(&mut guess, '/');
    guess.append(name);
    guess.append(".json");
    assert(guess@ =~= base@ + seq!['/'] + name@ + ".json"@);
    push_unique_exec(&mut candidates, guess);
    let nc = chars_of(name);
    let slash = chars_of("/");
    let ext = chars_of(".json");
    proof {
        reveal_strlit("/");
        reveal_strlit(".json");
    }
    let has_slash = find_first(nc.as_slice(), 0, slash.as_slice()).is_some();
    proof {
        crate::render::lemma_first_at_contains(nc@, slash@);
    }
    let n = nc.len();
    let is_json = n >= 5 && crate::text::matches_at(nc.as_slice(), n - 5, ext.as_slice());
    assert(ext@.len() == 5);
    assert(is_json == (name@.len() >= 5 && name@.subrange(name@.len() - 5, name@.len() as int)
        == ".json"@));
    if has_slash || is_json {
        push_unique_exec(&mut candidates, name.to_string());
    }
    candidates
}

/// The outcome of trying candidates in order, the tries given as made (a search stops at its
/// first success): the first card read, else the last failure, else an invalid-input error for
/// a search with nothing to try.
pub fn settle_search(attempts: Vec<Result<LoadedCard, ComponentError>>, lookup_key: &str) -> (r:
    Result<LoadedCard, ComponentError>)
    ensures
        (exists|i: int| 0 <= i < attempts@.len() && attempts@[i] is Ok) ==> exists|i: int|
            0 <= i < attempts@.len() && r == attempts@[i] && r is Ok && forall|j: int|
                0 <= j < i ==> attempts@[j] is Err,
        (forall|i: int| 0 <= i < attempts@.len() ==> attempts@[i] is Err) && attempts@.len() > 0
            ==> r == attempts@[attempts@.len() - 1],
        attempts@.len() == 0 ==> (r matches Err(e) && e is InvalidInput),
{
    let ghost all = attempts@;
    let n = attempts.len();
    let mut rest = attempts;
    let mut last: Option<ComponentError> = None;
    let mut k: usize = 0;
    while rest.len() > 0
        invariant
            all == attempts@,
            all.len() == n,
            k <= all.len(),
            rest@ == all.subrange(k as int, all.len() as int),
            forall|j: int| 0 <= j < k ==> all[j] is Err,
            k > 0 ==> (last matches Some(e) && all[k - 1] == Err::<LoadedCard, ComponentError>(e)),
            k == 0 ==> last is None,
        decreases rest.len(),
    {
        let a = rest.remove(0);
        assert(a == all[k as int]);
        match a {
            Ok(c) => {
                let r = Ok(c);
                assert(r == all[k as int]);
                assert(all[k as int] is Ok);
                return r;
            },
            Err(e) => {
                last = Some(e);
            },
        }
        k = k + 1;
        assert(rest@ =~= all.subrange(k as int, all.len() as int));
    }
    assert(k == all.len());
    match last {
        Some(e) => Err(e),
        None => {
            let mut m = "unable to resolve card for ".to_string();
            m.append(lookup_key);
            Err(ComponentError::InvalidInput(m))
        },
    }
}

} // verus!
