//! The changes made to Steam's configuration files: skipping the offline-mode
//! warning, marking the account switched to, hiding the user chooser, and the
//! custom Steam path.
use vstd::prelude::*;
use vstd::string::StringExecFns;
use crate::value::{
    VdfValue,
    VdfMap,
    VdfTree,
    lookup,
    insert_entry,
    replace_first,
    put_entry,
    or_empty_obj,
    lemma_replace_same,
    lemma_lookup_insert,
    lemma_lookup_replace,
    lemma_lookup_put,
};
use crate::strutil::{decimal, u64_to_string, trim, trim_str};
use crate::text::string_of;

verus! {

/// A user map with `k` set to the string `v`; string values unchanged.
pub open spec fn set_in_user(t: VdfTree, k: Seq<char>, v: Seq<char>) -> VdfTree {
    match t {
        VdfTree::Obj(u) => VdfTree::Obj(insert_entry(u, k, VdfTree::Str(v))),
        VdfTree::Str(s) => VdfTree::Str(s),
    }
}

/// Every user map of `users` with `SkipOfflineModeWarning` set to "1".
pub open spec fn skip_offline_users(users: Seq<(Seq<char>, VdfTree)>) -> Seq<(Seq<char>, VdfTree)> {
    Seq::new(
        users.len(),
        |i: int| (users[i].0, set_in_user(users[i].1, "SkipOfflineModeWarning"@, "1"@)),
    )
}

/// `loginusers.vdf` with the offline-mode warning skipped for every user; the
/// document unchanged when it has no `users` map.
pub open spec fn skip_offline_doc(doc: Seq<(Seq<char>, VdfTree)>) -> Seq<(Seq<char>, VdfTree)> {
    match lookup(doc, "users"@) {
        Some(VdfTree::Obj(users)) => replace_first(
            doc,
            "users"@,
            VdfTree::Obj(skip_offline_users(users)),
        ),
        _ => doc,
    }
}

/// Sets `SkipOfflineModeWarning` to "1" for every user of `loginusers.vdf`;
/// whether the document has a `users` map.
pub fn skip_offline_warnings(doc: &mut VdfMap) -> (found: bool)
    ensures
        found == (lookup(old(doc)@, "users"@) matches Some(VdfTree::Obj(_))),
        final(doc)@ == skip_offline_doc(old(doc)@),
{
    match doc.get_mut("users") {
        Some(v) => match v.get_obj_mut() {
            Some(users) => {
                let ghost old_users = users@;
                let n = users.len();
                let mut i: usize = 0;
                while i < n
                    invariant
                        n == old_users.len(),
                        users@.len() == n,
                        i <= n,
                        forall|j: int|
                            0 <= j < i ==> #[trigger] users@[j] == skip_offline_users(old_users)[j],
                        forall|j: int| i <= j < n ==> #[trigger] users@[j] == old_users[j],
                    decreases n - i,
                {
                    let ghost before = users@;
                    let uv = users.value_at_mut(i);
                    match uv.get_obj_mut() {
                        Some(u) => {
                            u.insert(
                                String::from_str("SkipOfflineModeWarning"),
                                VdfValue::Str(String::from_str("1")),
                            );
                        },
                        None => {},
                    }
                    proof {
                        assert(users@[i as int] == skip_offline_users(old_users)[i as int]);
                        assert forall|j: int| 0 <= j < n && j != i implies #[trigger] users@[j]
                            == before[j] by {}
                    }
                    i = i + 1;
                }
                proof {
                    assert(users@ =~= skip_offline_users(old_users));
                }
                true
            },
            None => {
                proof {
                    lemma_replace_same(old(doc)@, "users"@, v@);
                }
                false
            },
        },
        None => false,
    }
}

/// A user map after switching: the account switched to (`is_target`) gets
/// `MostRecent`, `RememberPassword` and `AllowAutoLogin` "1" and `Timestamp`
/// `now`; every other account gets `MostRecent` and `AllowAutoLogin` "0".
pub open spec fn switched_user(t: VdfTree, is_target: bool, now: Seq<char>) -> VdfTree {
    match t {
        VdfTree::Obj(u) => VdfTree::Obj(
            if is_target {
                insert_entry(
                    insert_entry(
                        insert_entry(
                            insert_entry(u, "MostRecent"@, VdfTree::Str("1"@)),
                            "RememberPassword"@,
                            VdfTree::Str("1"@),
                        ),
                        "AllowAutoLogin"@,
                        VdfTree::Str("1"@),
                    ),
                    "Timestamp"@,
                    VdfTree::Str(now),
                )
            } else {
                insert_entry(
                    insert_entry(u, "MostRecent"@, VdfTree::Str("0"@)),
                    "AllowAutoLogin"@,
                    VdfTree::Str("0"@),
                )
            },
        ),
        VdfTree::Str(s) => VdfTree::Str(s),
    }
}

/// The `users` map after switching to `target` at time `now`.
pub open spec fn switched_users(
    users: Seq<(Seq<char>, VdfTree)>,
    target: Seq<char>,
    now: Seq<char>,
) -> Seq<(Seq<char>, VdfTree)> {
    Seq::new(users.len(), |i: int| (users[i].0, switched_user(users[i].1, users[i].0 == target, now)))
}

/// `loginusers.vdf` after switching to the account with Steam ID `target` at
/// Unix time `now`; unchanged when it has no `users` map.
pub open spec fn switched_doc(doc: Seq<(Seq<char>, VdfTree)>, target: Seq<char>, now: u64) -> Seq<
    (Seq<char>, VdfTree),
> {
    match lookup(doc, "users"@) {
        Some(VdfTree::Obj(users)) => replace_first(
            doc,
            "users"@,
            VdfTree::Obj(switched_users(users, target, decimal(now as nat))),
        ),
        _ => doc,
    }
}

fn set_str(u: &mut VdfMap, key: &str, value: &str)
    ensures
        final(u)@ == insert_entry(old(u)@, key@, VdfTree::Str(value@)),
{
    u.insert(string_of(key), VdfValue::Str(string_of(value)));
}

/// Records in `loginusers.vdf` that the account with Steam ID `target` is the one
/// switched to at Unix time `now`; whether the document has a `users` map.
pub fn mark_switched_account(doc: &mut VdfMap, target: &str, now: u64) -> (found: bool)
    ensures
        found == (lookup(old(doc)@, "users"@) matches Some(VdfTree::Obj(_))),
        final(doc)@ == switched_doc(old(doc)@, target@, now),
{
    let now_text = u64_to_string(now);
    match doc.get_mut("users") {
        Some(v) => match v.get_obj_mut() {
            Some(users) => {
                let ghost old_users = users@;
                let ghost now_s = now_text@;
                let n = users.len();
                let mut i: usize = 0;
                while i < n
                    invariant
                        n == old_users.len(),
                        users@.len() == n,
                        i <= n,
                        now_s == now_text@,
                        forall|j: int|
                            0 <= j < i ==> #[trigger] users@[j] == switched_users(
                                old_users,
                                target@,
                                now_s,
                            )[j],
                        forall|j: int| i <= j < n ==> #[trigger] users@[j] == old_users[j],
                    decreases n - i,
                {
                    let ghost before = users@;
                    let is_target = crate::text::same_chars(
                        users.key_at(i).as_str(),
                        target,
                    );
                    let uv = users.value_at_mut(i);
                    match uv.get_obj_mut() {
                        Some(u) => {
                            if is_target {
                                set_str(u, "MostRecent", "1");
                                set_str(u, "RememberPassword", "1");
                                set_str(u, "AllowAutoLogin", "1");
                                set_str(u, "Timestamp", now_text.as_str());
                            } else {
                                set_str(u, "MostRecent", "0");
                                set_str(u, "AllowAutoLogin", "0");
                            }
                        },
                        None => {},
                    }
                    proof {
                        assert(users@[i as int] == switched_users(old_users, target@, now_s)[i as int]);
                        assert forall|j: int| 0 <= j < n && j != i implies #[trigger] users@[j]
                            == before[j] by {}
                    }
                    i = i + 1;
                }
                proof {
                    assert(users@ =~= switched_users(old_users, target@, now_s));
                }
                true
            },
            None => {
                proof {
                    lemma_replace_same(old(doc)@, "users"@, v@);
                }
                false
            },
        },
        None => false,
    }
}

/// An `Auth` value with `AlwaysShowUserChooser` set to "0".
pub open spec fn chooser_off_auth(a: VdfTree) -> VdfTree {
    set_in_user(a, "AlwaysShowUserChooser"@, "0"@)
}

/// A `WebStorage` value whose `Auth` map (created when missing) has the chooser off.
pub open spec fn chooser_off_web(w: VdfTree) -> VdfTree {
    match w {
        VdfTree::Obj(x) => VdfTree::Obj(
            put_entry(x, "Auth"@, chooser_off_auth(or_empty_obj(lookup(x, "Auth"@)))),
        ),
        VdfTree::Str(s) => VdfTree::Str(s),
    }
}

/// `config.vdf` with the user chooser turned off under
/// `InstallConfigStore/WebStorage/Auth` (the last two created when missing);
/// unchanged when there is no `InstallConfigStore` map.
pub open spec fn chooser_off_doc(doc: Seq<(Seq<char>, VdfTree)>) -> Seq<(Seq<char>, VdfTree)> {
    match lookup(doc, "InstallConfigStore"@) {
        Some(VdfTree::Obj(store)) => replace_first(
            doc,
            "InstallConfigStore"@,
            VdfTree::Obj(
                put_entry(
                    store,
                    "WebStorage"@,
                    chooser_off_web(or_empty_obj(lookup(store, "WebStorage"@))),
                ),
            ),
        ),
        _ => doc,
    }
}

/// Turns the user chooser off in `config.vdf`; whether the document has an
/// `InstallConfigStore` map.
pub fn disable_user_chooser(doc: &mut VdfMap) -> (found: bool)
    ensures
        found == (lookup(old(doc)@, "InstallConfigStore"@) matches Some(VdfTree::Obj(_))),
        final(doc)@ == chooser_off_doc(old(doc)@),
{
    match doc.get_mut("InstallConfigStore") {
        Some(v) => match v.get_obj_mut() {
            Some(store) => {
                let web = store.entry_or_insert_obj("WebStorage");
                match web.get_obj_mut() {
                    Some(w) => {
                        let auth = w.entry_or_insert_obj("Auth");
                        match auth.get_obj_mut() {
                            Some(a) => {
                                set_str(a, "AlwaysShowUserChooser", "0");
                            },
                            None => {},
                        }
                    },
                    None => {},
                }
                true
            },
            None => {
                proof {
                    lemma_replace_same(old(doc)@, "InstallConfigStore"@, v@);
                }
                false
            },
        },
        None => false,
    }
}

/// The custom Steam path saved in `custom_steam_path`: its trimmed text, unless
/// that is empty.
pub open spec fn custom_path_of(content: Seq<char>) -> Option<Seq<char>> {
    if trim(content).len() == 0 {
        None
    } else {
        Some(trim(content))
    }
}

/// Reads the custom Steam path from the text of `custom_steam_path`.
pub fn custom_steam_path(content: &str) -> (r: Option<String>)
    ensures
        match r {
            Some(p) => custom_path_of(content@) == Some(p@),
            None => custom_path_of(content@) is None,
        },
{
    let t = trim_str(content);
    if t.as_str().unicode_len() == 0 {
        None
    } else {
        Some(t)
    }
}


/// The map stored under `k`, if the value there is a map.
pub open spec fn map_under(m: Seq<(Seq<char>, VdfTree)>, k: Seq<char>) -> Option<
    Seq<(Seq<char>, VdfTree)>,
> {
    match lookup(m, k) {
        Some(VdfTree::Obj(c)) => Some(c),
        _ => None,
    }
}

/// The map stored under `k`, or an empty map when there is none or it is a string.
pub open spec fn map_or_empty(m: Seq<(Seq<char>, VdfTree)>, k: Seq<char>) -> Seq<
    (Seq<char>, VdfTree),
> {
    match lookup(m, k) {
        Some(VdfTree::Obj(c)) => c,
        _ => Seq::empty(),
    }
}

/// Skipping the offline warning gives every user map `SkipOfflineModeWarning`
/// "1" and leaves every other setting of every user, the users' Steam IDs and
/// order, string entries of `users`, and the rest of the document as they were.
pub proof fn lemma_skip_offline_sets_every_user(
    doc: Seq<(Seq<char>, VdfTree)>,
    users: Seq<(Seq<char>, VdfTree)>,
)
    requires
        lookup(doc, "users"@) == Some(VdfTree::Obj(users)),
    ensures
        map_under(skip_offline_doc(doc), "users"@) matches Some(after) && after.len() == users.len()
            && (forall|i: int|
            0 <= i < users.len() ==> {
                &&& after[i].0 == users[i].0
                &&& users[i].1 is Str ==> after[i].1 == users[i].1
                &&& users[i].1 is Obj ==> after[i].1 is Obj && lookup(
                    after[i].1->Obj_0,
                    "SkipOfflineModeWarning"@,
                ) == Some(VdfTree::Str("1"@)) && forall|k: Seq<char>|
                    k != "SkipOfflineModeWarning"@ ==> lookup(after[i].1->Obj_0, k) == lookup(
                        users[i].1->Obj_0,
                        k,
                    )
            }),
        forall|k: Seq<char>| k != "users"@ ==> lookup(skip_offline_doc(doc), k) == lookup(doc, k),
{
    let after = skip_offline_users(users);
    let d = skip_offline_doc(doc);
    lemma_lookup_replace(doc, "users"@, VdfTree::Obj(after), "users"@);
    assert forall|k: Seq<char>| k != "users"@ implies lookup(d, k) == lookup(doc, k) by {
        lemma_lookup_replace(doc, "users"@, VdfTree::Obj(after), k);
    }
    assert forall|i: int| 0 <= i < users.len() implies {
        &&& after[i].0 == users[i].0
        &&& users[i].1 is Str ==> after[i].1 == users[i].1
        &&& users[i].1 is Obj ==> after[i].1 is Obj && lookup(
            after[i].1->Obj_0,
            "SkipOfflineModeWarning"@,
        ) == Some(VdfTree::Str("1"@)) && forall|k: Seq<char>|
            k != "SkipOfflineModeWarning"@ ==> lookup(after[i].1->Obj_0, k) == lookup(
                users[i].1->Obj_0,
                k,
            )
    } by {
        if let VdfTree::Obj(u) = users[i].1 {
            let v = VdfTree::Str("1"@);
            lemma_lookup_insert(u, "SkipOfflineModeWarning"@, v, "SkipOfflineModeWarning"@);
            assert forall|k: Seq<char>| k != "SkipOfflineModeWarning"@ implies lookup(
                after[i].1->Obj_0,
                k,
            ) == lookup(u, k) by {
                lemma_lookup_insert(u, "SkipOfflineModeWarning"@, v, k);
            }
        }
    }
}

/// What switching does to one user map `u`: the account switched to gets
/// `MostRecent`, `RememberPassword` and `AllowAutoLogin` "1" and `Timestamp`
/// `now`, whatever they held; any other account gets `MostRecent` and
/// `AllowAutoLogin` "0"; every other setting stays as it was.
pub proof fn lemma_switched_user_settings(u: Seq<(Seq<char>, VdfTree)>, is_target: bool, now: Seq<char>)
    ensures
        switched_user(VdfTree::Obj(u), is_target, now) is Obj,
        ({
            let u2 = switched_user(VdfTree::Obj(u), is_target, now)->Obj_0;
            let flag = VdfTree::Str(if is_target { "1"@ } else { "0"@ });
            &&& lookup(u2, "MostRecent"@) == Some(flag)
            &&& lookup(u2, "AllowAutoLogin"@) == Some(flag)
            &&& is_target ==> lookup(u2, "RememberPassword"@) == Some(VdfTree::Str("1"@))
            &&& is_target ==> lookup(u2, "Timestamp"@) == Some(VdfTree::Str(now))
            &&& forall|k: Seq<char>|
                k != "MostRecent"@ && k != "AllowAutoLogin"@ && (is_target ==> k
                    != "RememberPassword"@ && k != "Timestamp"@) ==> lookup(u2, k) == lookup(u, k)
        }),
{
    reveal_strlit("MostRecent");
    reveal_strlit("RememberPassword");
    reveal_strlit("AllowAutoLogin");
    reveal_strlit("Timestamp");
    assert("MostRecent"@.len() == 10 && "RememberPassword"@.len() == 16);
    assert("AllowAutoLogin"@.len() == 14 && "Timestamp"@.len() == 9);
    assert("MostRecent"@ != "RememberPassword"@ && "MostRecent"@ != "AllowAutoLogin"@);
    assert("MostRecent"@ != "Timestamp"@ && "RememberPassword"@ != "AllowAutoLogin"@);
    assert("RememberPassword"@ != "Timestamp"@ && "AllowAutoLogin"@ != "Timestamp"@);
    let one = VdfTree::Str("1"@);
    let zero = VdfTree::Str("0"@);
    if is_target {
        let u1 = insert_entry(u, "MostRecent"@, one);
        let u2 = insert_entry(u1, "RememberPassword"@, one);
        let u3 = insert_entry(u2, "AllowAutoLogin"@, one);
        let u4 = insert_entry(u3, "Timestamp"@, VdfTree::Str(now));
        assert forall|k: Seq<char>| #![all_triggers] true implies {
            &&& (k == "MostRecent"@ ==> lookup(u4, k) == Some(one))
            &&& (k == "RememberPassword"@ ==> lookup(u4, k) == Some(one))
            &&& (k == "AllowAutoLogin"@ ==> lookup(u4, k) == Some(one))
            &&& (k == "Timestamp"@ ==> lookup(u4, k) == Some(VdfTree::Str(now)))
            &&& (k != "MostRecent"@ && k != "AllowAutoLogin"@ && k != "RememberPassword"@ && k
                != "Timestamp"@ ==> lookup(u4, k) == lookup(u, k))
        } by {
            lemma_lookup_insert(u, "MostRecent"@, one, k);
            lemma_lookup_insert(u1, "RememberPassword"@, one, k);
            lemma_lookup_insert(u2, "AllowAutoLogin"@, one, k);
            lemma_lookup_insert(u3, "Timestamp"@, VdfTree::Str(now), k);
        }
        assert(lookup(u4, "MostRecent"@) == Some(one));
        assert(lookup(u4, "RememberPassword"@) == Some(one));
        assert(lookup(u4, "AllowAutoLogin"@) == Some(one));
        assert(lookup(u4, "Timestamp"@) == Some(VdfTree::Str(now)));
    } else {
        let u1 = insert_entry(u, "MostRecent"@, zero);
        let u2 = insert_entry(u1, "AllowAutoLogin"@, zero);
        assert forall|k: Seq<char>| #![all_triggers] true implies {
            &&& (k == "MostRecent"@ ==> lookup(u2, k) == Some(zero))
            &&& (k == "AllowAutoLogin"@ ==> lookup(u2, k) == Some(zero))
            &&& (k != "MostRecent"@ && k != "AllowAutoLogin"@ ==> lookup(u2, k) == lookup(u, k))
        } by {
            lemma_lookup_insert(u, "MostRecent"@, zero, k);
            lemma_lookup_insert(u1, "AllowAutoLogin"@, zero, k);
        }
        assert(lookup(u2, "MostRecent"@) == Some(zero));
        assert(lookup(u2, "AllowAutoLogin"@) == Some(zero));
    }
}

/// Switching to the account with Steam ID `target` at time `now` marks that
/// account's user map as the one to log in with, stamped with the decimal text
/// of `now`, and marks every other account's map as not; the users' Steam IDs
/// and order, string entries of `users`, and the rest of the document stay as
/// they were.
pub proof fn lemma_switch_marks_target(
    doc: Seq<(Seq<char>, VdfTree)>,
    users: Seq<(Seq<char>, VdfTree)>,
    target: Seq<char>,
    now: u64,
)
    requires
        lookup(doc, "users"@) == Some(VdfTree::Obj(users)),
    ensures
        map_under(switched_doc(doc, target, now), "users"@) matches Some(after) && after.len()
            == users.len() && (forall|i: int|
            #![trigger after[i]]
            0 <= i < users.len() ==> {
                let is_target = users[i].0 == target;
                let flag = VdfTree::Str(if is_target { "1"@ } else { "0"@ });
                &&& after[i].0 == users[i].0
                &&& users[i].1 is Str ==> after[i].1 == users[i].1
                &&& users[i].1 is Obj ==> {
                    let u = users[i].1->Obj_0;
                    &&& after[i].1 is Obj
                    &&& lookup(after[i].1->Obj_0, "MostRecent"@) == Some(flag)
                    &&& lookup(after[i].1->Obj_0, "AllowAutoLogin"@) == Some(flag)
                    &&& is_target ==> lookup(after[i].1->Obj_0, "RememberPassword"@) == Some(
                        VdfTree::Str("1"@),
                    )
                    &&& is_target ==> lookup(after[i].1->Obj_0, "Timestamp"@) == Some(
                        VdfTree::Str(decimal(now as nat)),
                    )
                    &&& forall|k: Seq<char>|
                        k != "MostRecent"@ && k != "AllowAutoLogin"@ && (is_target ==> k
                            != "RememberPassword"@ && k != "Timestamp"@) ==> lookup(
                            after[i].1->Obj_0,
                            k,
                        ) == lookup(u, k)
                }
            }),
        forall|k: Seq<char>| k != "users"@ ==> lookup(switched_doc(doc, target, now), k) == lookup(
            doc,
            k,
        ),
{
    let now_text = decimal(now as nat);
    let after = switched_users(users, target, now_text);
    let d = switched_doc(doc, target, now);
    lemma_lookup_replace(doc, "users"@, VdfTree::Obj(after), "users"@);
    assert forall|k: Seq<char>| k != "users"@ implies lookup(d, k) == lookup(doc, k) by {
        lemma_lookup_replace(doc, "users"@, VdfTree::Obj(after), k);
    }
    assert forall|i: int| #![trigger after[i]] 0 <= i < users.len() implies after[i].0 == users[i].0 && (
    users[i].1 is Str ==> after[i].1 == users[i].1) && (users[i].1 is Obj ==> {
        let is_target = users[i].0 == target;
        let flag = VdfTree::Str(if is_target { "1"@ } else { "0"@ });
        let u = users[i].1->Obj_0;
        &&& after[i].1 is Obj
        &&& lookup(after[i].1->Obj_0, "MostRecent"@) == Some(flag)
        &&& lookup(after[i].1->Obj_0, "AllowAutoLogin"@) == Some(flag)
        &&& is_target ==> lookup(after[i].1->Obj_0, "RememberPassword"@) == Some(
            VdfTree::Str("1"@),
        )
        &&& is_target ==> lookup(after[i].1->Obj_0, "Timestamp"@) == Some(VdfTree::Str(now_text))
        &&& forall|k: Seq<char>|
            k != "MostRecent"@ && k != "AllowAutoLogin"@ && (is_target ==> k != "RememberPassword"@
                && k != "Timestamp"@) ==> lookup(after[i].1->Obj_0, k) == lookup(u, k)
    }) by {
        if let VdfTree::Obj(u) = users[i].1 {
            lemma_switched_user_settings(u, users[i].0 == target, now_text);
        }
    }
}

/// Turning the user chooser off makes `AlwaysShowUserChooser` read "0" under
/// `InstallConfigStore/WebStorage/Auth`, whatever it held, when `WebStorage` and
/// `Auth` are maps or absent (absent ones are created); every other setting on
/// the way, and the rest of the document, stay as they were.
pub proof fn lemma_chooser_off(doc: Seq<(Seq<char>, VdfTree)>, store: Seq<(Seq<char>, VdfTree)>)
    requires
        lookup(doc, "InstallConfigStore"@) == Some(VdfTree::Obj(store)),
        lookup(store, "WebStorage"@) is None || lookup(store, "WebStorage"@) matches Some(
            VdfTree::Obj(_),
        ),
        lookup(map_or_empty(store, "WebStorage"@), "Auth"@) is None || lookup(
            map_or_empty(store, "WebStorage"@),
            "Auth"@,
        ) matches Some(VdfTree::Obj(_)),
    ensures
        ({
            let w0 = map_or_empty(store, "WebStorage"@);
            let a0 = map_or_empty(w0, "Auth"@);
            map_under(chooser_off_doc(doc), "InstallConfigStore"@) matches Some(s2) && map_under(
                s2,
                "WebStorage"@,
            ) matches Some(w2) && map_under(w2, "Auth"@) matches Some(a2) && lookup(
                a2,
                "AlwaysShowUserChooser"@,
            ) == Some(VdfTree::Str("0"@)) && (forall|k: Seq<char>|
                k != "AlwaysShowUserChooser"@ ==> lookup(a2, k) == lookup(a0, k)) && (forall|
                k: Seq<char>,
            | k != "Auth"@ ==> lookup(w2, k) == lookup(w0, k)) && (forall|k: Seq<char>|
                k != "WebStorage"@ ==> lookup(s2, k) == lookup(store, k))
        }),
        forall|k: Seq<char>|
            k != "InstallConfigStore"@ ==> lookup(chooser_off_doc(doc), k) == lookup(doc, k),
{
    let w0 = map_or_empty(store, "WebStorage"@);
    let a0 = map_or_empty(w0, "Auth"@);
    assert(or_empty_obj(lookup(store, "WebStorage"@)) == VdfTree::Obj(w0));
    assert(or_empty_obj(lookup(w0, "Auth"@)) == VdfTree::Obj(a0));
    let zero = VdfTree::Str("0"@);
    let a2 = insert_entry(a0, "AlwaysShowUserChooser"@, zero);
    assert(chooser_off_auth(VdfTree::Obj(a0)) == VdfTree::Obj(a2));
    let w2 = put_entry(w0, "Auth"@, VdfTree::Obj(a2));
    assert(chooser_off_web(VdfTree::Obj(w0)) == VdfTree::Obj(w2));
    let s2 = put_entry(store, "WebStorage"@, VdfTree::Obj(w2));
    let d = chooser_off_doc(doc);
    assert(d == replace_first(doc, "InstallConfigStore"@, VdfTree::Obj(s2)));
    lemma_lookup_replace(doc, "InstallConfigStore"@, VdfTree::Obj(s2), "InstallConfigStore"@);
    lemma_lookup_put(store, "WebStorage"@, VdfTree::Obj(w2), "WebStorage"@);
    lemma_lookup_put(w0, "Auth"@, VdfTree::Obj(a2), "Auth"@);
    lemma_lookup_insert(a0, "AlwaysShowUserChooser"@, zero, "AlwaysShowUserChooser"@);
    assert forall|k: Seq<char>| k != "AlwaysShowUserChooser"@ implies lookup(a2, k) == lookup(
        a0,
        k,
    ) by {
        lemma_lookup_insert(a0, "AlwaysShowUserChooser"@, zero, k);
    }
    assert forall|k: Seq<char>| k != "Auth"@ implies lookup(w2, k) == lookup(w0, k) by {
        lemma_lookup_put(w0, "Auth"@, VdfTree::Obj(a2), k);
    }
    assert forall|k: Seq<char>| k != "WebStorage"@ implies lookup(s2, k) == lookup(store, k) by {
        lemma_lookup_put(store, "WebStorage"@, VdfTree::Obj(w2), k);
    }
    assert forall|k: Seq<char>| k != "InstallConfigStore"@ implies lookup(d, k) == lookup(doc, k) by {
        lemma_lookup_replace(doc, "InstallConfigStore"@, VdfTree::Obj(s2), k);
    }
}

} // verus!
