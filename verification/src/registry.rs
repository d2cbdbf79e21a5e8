//! The auto-login settings in `registry.vdf`, the file in which Steam keeps its
//! registry on Linux and macOS: reading a value under `Registry/HKCU/Software/Valve/Steam`
//! and writing one there (creating the missing maps on the way).
use vstd::prelude::*;
use vstd::string::StringExecFns;
use crate::value::{
    VdfValue,
    VdfMap,
    VdfTree,
    lookup,
    insert_entry,
    put_entry,
    or_empty_obj,
    tree_get,
    tree_wf,
    entries_wf,
    first_index,
    lemma_insert_wf,
    lemma_lookup_insert,
    lemma_lookup_some,
    lemma_lookup_first,
    lemma_replace_first,
    lemma_update_wf,
    lemma_values_wf,
};
use crate::roundtrip::{
    no_ctrl,
    tree_plain,
    entries_plain,
    lemma_entries_plain,
    lemma_insert_plain,
    lemma_update_plain,
    lemma_parse_stringify_roundtrip,
};
use crate::parser::{parse, spec_parse, lemma_spec_parse_wf};
use crate::writer::{stringify, render};
use crate::text::string_of;

verus! {

/// Steam's settings on Linux and macOS, kept in `registry.vdf`.
pub struct UnixPlatform;

/// The maps on the way to Steam's settings, outermost first.
pub open spec fn registry_keys() -> Seq<Seq<char>> {
    seq!["Registry"@, "HKCU"@, "Software"@, "Valve"@, "Steam"@]
}

/// The message when the value at the matching level of `registry_keys` is a string.
pub open spec fn registry_errors() -> Seq<Seq<char>> {
    seq![
        "invalid registry.vdf root structure"@,
        "invalid HKCU"@,
        "invalid Software"@,
        "invalid Valve"@,
        "invalid Steam"@,
    ]
}

/// The value under `k` of an optional value.
pub open spec fn opt_get(o: Option<VdfTree>, k: Seq<char>) -> Option<VdfTree> {
    match o {
        Some(t) => tree_get(t, k),
        None => None,
    }
}

/// The string stored as `name` in Steam's settings of a parsed `registry.vdf`.
pub open spec fn registry_value_in(doc: Seq<(Seq<char>, VdfTree)>, name: Seq<char>) -> Option<
    Seq<char>,
> {
    let steam = opt_get(
        opt_get(opt_get(opt_get(lookup(doc, "Registry"@), "HKCU"@), "Software"@), "Valve"@),
        "Steam"@,
    );
    match opt_get(steam, name) {
        Some(VdfTree::Str(s)) => Some(s),
        _ => None,
    }
}

/// The string stored as `name` in Steam's settings, read from the text of
/// `registry.vdf`; none when the text does not parse.
pub open spec fn registry_value_of(content: Seq<char>, name: Seq<char>) -> Option<Seq<char>> {
    match spec_parse(content) {
        Ok(doc) => registry_value_in(doc, name),
        Err(_) => None,
    }
}

/// `m` with `name` set to the string `value` in the map reached through `keys`,
/// maps created where keys are missing; the matching message of `errs` when a
/// value on the way is a string.
pub open spec fn set_at_path(
    m: Seq<(Seq<char>, VdfTree)>,
    keys: Seq<Seq<char>>,
    errs: Seq<Seq<char>>,
    name: Seq<char>,
    value: Seq<char>,
) -> Result<Seq<(Seq<char>, VdfTree)>, Seq<char>>
    decreases keys.len(),
{
    if keys.len() == 0 {
        Ok(insert_entry(m, name, VdfTree::Str(value)))
    } else {
        match or_empty_obj(lookup(m, keys[0])) {
            VdfTree::Str(_) => Err(errs[0]),
            VdfTree::Obj(c) => match set_at_path(
                c,
                keys.drop_first(),
                errs.drop_first(),
                name,
                value,
            ) {
                Ok(c2) => Ok(put_entry(m, keys[0], VdfTree::Obj(c2))),
                Err(e) => Err(e),
            },
        }
    }
}

/// The new text of `registry.vdf` with `name` set to `value` in Steam's settings.
pub open spec fn registry_set_text(content: Seq<char>, name: Seq<char>, value: Seq<char>) -> Result<
    Seq<char>,
    Seq<char>,
> {
    match spec_parse(content) {
        Err(e) => Err(e),
        Ok(doc) => match set_at_path(doc, registry_keys(), registry_errors(), name, value) {
            Ok(d) => Ok(render(d, 0)),
            Err(e) => Err(e),
        },
    }
}

/// The value under `name` in the map reached from `m` through the maps under
/// `keys`, outermost first.
pub open spec fn value_at_path(
    m: Seq<(Seq<char>, VdfTree)>,
    keys: Seq<Seq<char>>,
    name: Seq<char>,
) -> Option<VdfTree>
    decreases keys.len(),
{
    if keys.len() == 0 {
        lookup(m, name)
    } else {
        match lookup(m, keys[0]) {
            Some(VdfTree::Obj(c)) => value_at_path(c, keys.drop_first(), name),
            _ => None,
        }
    }
}

/// The value found under `k` in a well-formed, plain map is well formed and plain.
proof fn lemma_lookup_wf_plain(m: Seq<(Seq<char>, VdfTree)>, k: Seq<char>)
    requires
        entries_wf(m),
        entries_plain(m),
    ensures
        lookup(m, k) matches Some(x) ==> tree_wf(x) && tree_plain(x),
{
    lemma_lookup_some(m, k);
    if lookup(m, k) is Some {
        let i = choose|i: int| first_index(m, k, i) && m[i].1 == lookup(m, k)->Some_0;
        lemma_values_wf(m);
        lemma_entries_plain(m);
        assert(tree_wf(m[i].1));
        assert(no_ctrl(m[i].0) && tree_plain(m[i].1));
    }
}

/// Storing `v` under a plain key `k` of a well-formed, plain map keeps it so and
/// makes `k` read as `v`.
proof fn lemma_put_entry(m: Seq<(Seq<char>, VdfTree)>, k: Seq<char>, v: VdfTree)
    requires
        entries_wf(m),
        entries_plain(m),
        no_ctrl(k),
        tree_wf(v),
        tree_plain(v),
    ensures
        entries_wf(put_entry(m, k, v)),
        entries_plain(put_entry(m, k, v)),
        lookup(put_entry(m, k, v), k) == Some(v),
{
    lemma_lookup_some(m, k);
    if lookup(m, k) is Some {
        let i = choose|i: int| first_index(m, k, i) && m[i].1 == lookup(m, k)->Some_0;
        lemma_replace_first(m, k, i, v);
        let r = m.update(i, (k, v));
        assert(r == m.update(i, (m[i].0, v)));
        lemma_update_wf(m, i, v);
        lemma_update_plain(m, i, v);
        assert(first_index(r, k, i)) by {
            assert forall|j: int| 0 <= j < i implies #[trigger] r[j].0 != k by {
                assert(r[j] == m[j]);
            }
        }
        lemma_lookup_first(r, k, i);
    } else {
        lemma_insert_wf(m, k, v);
        lemma_insert_plain(m, k, v);
        lemma_lookup_insert(m, k, v, k);
    }
}

/// Setting a value through a path of plain keys in a well-formed, plain map
/// gives, when it succeeds, a well-formed, plain map in which the path leads to
/// the value.
pub proof fn lemma_set_at_path(
    m: Seq<(Seq<char>, VdfTree)>,
    keys: Seq<Seq<char>>,
    errs: Seq<Seq<char>>,
    name: Seq<char>,
    value: Seq<char>,
)
    requires
        entries_wf(m),
        entries_plain(m),
        forall|i: int| 0 <= i < keys.len() ==> no_ctrl(#[trigger] keys[i]),
        no_ctrl(name),
        no_ctrl(value),
    ensures
        set_at_path(m, keys, errs, name, value) matches Ok(d) ==> entries_wf(d) && entries_plain(d)
            && value_at_path(d, keys, name) == Some(VdfTree::Str(value)),
    decreases keys.len(),
{
    if keys.len() == 0 {
        lemma_insert_wf(m, name, VdfTree::Str(value));
        lemma_insert_plain(m, name, VdfTree::Str(value));
        lemma_lookup_insert(m, name, VdfTree::Str(value), name);
    } else {
        let k0 = keys[0];
        lemma_lookup_wf_plain(m, k0);
        if let VdfTree::Obj(c) = or_empty_obj(lookup(m, k0)) {
            lemma_values_wf(Seq::<(Seq<char>, VdfTree)>::empty());
            assert(entries_wf(c) && entries_plain(c));
            let rest = keys.drop_first();
            assert forall|i: int| 0 <= i < rest.len() implies no_ctrl(#[trigger] rest[i]) by {
                assert(rest[i] == keys[i + 1]);
            }
            lemma_set_at_path(c, rest, errs.drop_first(), name, value);
            if let Ok(c2) = set_at_path(c, rest, errs.drop_first(), name, value) {
                assert(no_ctrl(keys[0]));
                lemma_put_entry(m, k0, VdfTree::Obj(c2));
            }
        }
    }
}

/// Where Steam's settings path leads to a string, reading the setting gives it.
proof fn lemma_registry_path(d: Seq<(Seq<char>, VdfTree)>, name: Seq<char>)
    ensures
        value_at_path(d, registry_keys(), name) matches Some(VdfTree::Str(s)) ==> registry_value_in(
            d,
            name,
        ) == Some(s),
{
    let k0 = registry_keys();
    let k1 = k0.drop_first();
    let k2 = k1.drop_first();
    let k3 = k2.drop_first();
    let k4 = k3.drop_first();
    let k5 = k4.drop_first();
    assert(k1 =~= seq!["HKCU"@, "Software"@, "Valve"@, "Steam"@]);
    assert(k2 =~= seq!["Software"@, "Valve"@, "Steam"@]);
    assert(k3 =~= seq!["Valve"@, "Steam"@]);
    assert(k4 =~= seq!["Steam"@]);
    assert(k5.len() == 0);
    assert(k0[0] == "Registry"@ && k1[0] == "HKCU"@ && k2[0] == "Software"@);
    assert(k3[0] == "Valve"@ && k4[0] == "Steam"@);
    if let Some(VdfTree::Obj(c1)) = lookup(d, "Registry"@) {
        assert(value_at_path(d, k0, name) == value_at_path(c1, k1, name));
        if let Some(VdfTree::Obj(c2)) = lookup(c1, "HKCU"@) {
            assert(value_at_path(c1, k1, name) == value_at_path(c2, k2, name));
            if let Some(VdfTree::Obj(c3)) = lookup(c2, "Software"@) {
                assert(value_at_path(c2, k2, name) == value_at_path(c3, k3, name));
                if let Some(VdfTree::Obj(c4)) = lookup(c3, "Valve"@) {
                    assert(value_at_path(c3, k3, name) == value_at_path(c4, k4, name));
                    if let Some(VdfTree::Obj(c5)) = lookup(c4, "Steam"@) {
                        assert(value_at_path(c4, k4, name) == value_at_path(c5, k5, name));
                        assert(value_at_path(c5, k5, name) == lookup(c5, name));
                    } else {
                        assert(value_at_path(c4, k4, name) is None);
                    }
                } else {
                    assert(value_at_path(c3, k3, name) is None);
                }
            } else {
                assert(value_at_path(c2, k2, name) is None);
            }
        } else {
            assert(value_at_path(c1, k1, name) is None);
        }
    } else {
        assert(value_at_path(d, k0, name) is None);
    }
}

/// Setting a value of Steam's settings and reading it back gives the value that
/// was set, for a `registry.vdf` whose keys and strings hold no newline, carriage
/// return or tab, and a name and value without them.
pub proof fn lemma_registry_set_then_get(content: Seq<char>, name: Seq<char>, value: Seq<char>)
    requires
        spec_parse(content) matches Ok(doc) && entries_plain(doc),
        no_ctrl(name),
        no_ctrl(value),
    ensures
        registry_set_text(content, name, value) matches Ok(out) ==> registry_value_of(out, name)
            == Some(value),
{
    lemma_spec_parse_wf(content);
    if let Ok(doc) = spec_parse(content) {
        reveal_strlit("Registry");
        reveal_strlit("HKCU");
        reveal_strlit("Software");
        reveal_strlit("Valve");
        reveal_strlit("Steam");
        let keys = registry_keys();
        assert forall|i: int| 0 <= i < keys.len() implies no_ctrl(#[trigger] keys[i]) by {}
        lemma_set_at_path(doc, keys, registry_errors(), name, value);
        if let Ok(d) = set_at_path(doc, keys, registry_errors(), name, value) {
            lemma_parse_stringify_roundtrip(d);
            lemma_registry_path(d, name);
        }
    }
}

fn registry_key(depth: usize) -> (k: &'static str)
    requires
        depth < 5,
    ensures
        k@ == registry_keys()[depth as int],
{
    match depth {
        0 => "Registry",
        1 => "HKCU",
        2 => "Software",
        3 => "Valve",
        _ => "Steam",
    }
}

fn registry_error(depth: usize) -> (e: &'static str)
    requires
        depth < 5,
    ensures
        e@ == registry_errors()[depth as int],
{
    match depth {
        0 => "invalid registry.vdf root structure",
        1 => "invalid HKCU",
        2 => "invalid Software",
        3 => "invalid Valve",
        _ => "invalid Steam",
    }
}

fn set_at_depth(m: &mut VdfMap, depth: usize, name: &str, value: &str) -> (r: Result<(), String>)
    requires
        depth <= 5,
    ensures
        match r {
            Ok(()) => set_at_path(
                old(m)@,
                registry_keys().skip(depth as int),
                registry_errors().skip(depth as int),
                name@,
                value@,
            ) == Ok::<Seq<(Seq<char>, VdfTree)>, Seq<char>>(final(m)@),
            Err(e) => set_at_path(
                old(m)@,
                registry_keys().skip(depth as int),
                registry_errors().skip(depth as int),
                name@,
                value@,
            ) == Err::<Seq<(Seq<char>, VdfTree)>, Seq<char>>(e@),
        },
    decreases 5 - depth,
{
    let ghost keys = registry_keys().skip(depth as int);
    let ghost errs = registry_errors().skip(depth as int);
    if depth == 5 {
        assert(keys.len() == 0);
        m.insert(string_of(name), VdfValue::Str(string_of(value)));
        return Ok(());
    }
    proof {
        assert(keys[0] == registry_keys()[depth as int]);
        assert(errs[0] == registry_errors()[depth as int]);
        assert(keys.drop_first() =~= registry_keys().skip(depth + 1));
        assert(errs.drop_first() =~= registry_errors().skip(depth + 1));
    }
    let key = registry_key(depth);
    let child = m.entry_or_insert_obj(key);
    match child.get_obj_mut() {
        None => Err(String::from_str(registry_error(depth))),
        Some(c) => set_at_depth(c, depth + 1, name, value),
    }
}

impl UnixPlatform {
    /// The string stored as `value_name` in Steam's settings, given the text of
    /// `registry.vdf`.
    pub fn get_registry_vdf_value(&self, content: &str, value_name: &str) -> (r: Option<String>)
        ensures
            match r {
                Some(s) => registry_value_of(content@, value_name@) == Some(s@),
                None => registry_value_of(content@, value_name@) is None,
            },
    {
        let doc = match parse(content) {
            Ok(d) => d,
            Err(_) => return None,
        };
        let reg = match doc.get("Registry") {
            Some(x) => x,
            None => return None,
        };
        let hkcu = match reg.get("HKCU") {
            Some(x) => x,
            None => return None,
        };
        let software = match hkcu.get("Software") {
            Some(x) => x,
            None => return None,
        };
        let valve = match software.get("Valve") {
            Some(x) => x,
            None => return None,
        };
        let steam = match valve.get("Steam") {
            Some(x) => x,
            None => return None,
        };
        let val = match steam.get(value_name) {
            Some(x) => x,
            None => return None,
        };
        match val.get_str() {
            Some(s) => Some(string_of(s)),
            None => None,
        }
    }

    /// The new text of `registry.vdf` (given its current text) with
    /// `value_name` set to `new_value` in Steam's settings.
    pub fn set_registry_vdf_value(&self, content: &str, value_name: &str, new_value: &str) -> (r:
        Result<String, String>)
        ensures
            match r {
                Ok(s) => registry_set_text(content@, value_name@, new_value@) == Ok::<
                    Seq<char>,
                    Seq<char>,
                >(s@),
                Err(e) => registry_set_text(content@, value_name@, new_value@) == Err::<
                    Seq<char>,
                    Seq<char>,
                >(e@),
            },
    {
        let mut doc = parse(content)?;
        proof {
            assert(registry_keys().skip(0) =~= registry_keys());
            assert(registry_errors().skip(0) =~= registry_errors());
        }
        set_at_depth(&mut doc, 0, value_name, new_value)?;
        Ok(stringify(&doc))
    }
}

} // verus!
