//! The Steam accounts listed in `loginusers.vdf`: one per entry of the `users`
//! map, most recently used first.
use vstd::prelude::*;
use vstd::string::StringExecFns;
use crate::value::{VdfMap, VdfTree, lookup};
use crate::parser::{parse, spec_parse};
use crate::strutil::{parse_unsigned, parse_unsigned_str};
use crate::text::{same_chars, string_of};

verus! {

/// A Steam account known to the client.
#[derive(Debug, PartialEq, Eq)]
pub struct Account {
    pub steam_id: String,
    pub username: String,
    pub display_name: String,
    pub most_recent: bool,
    pub timestamp: u64,
}

/// The model of an account.
pub struct AccountView {
    pub steam_id: Seq<char>,
    pub username: Seq<char>,
    pub display_name: Seq<char>,
    pub most_recent: bool,
    pub timestamp: u64,
}

impl View for Account {
    type V = AccountView;

    open spec fn view(&self) -> AccountView {
        AccountView {
            steam_id: self.steam_id@,
            username: self.username@,
            display_name: self.display_name@,
            most_recent: self.most_recent,
            timestamp: self.timestamp,
        }
    }
}

/// The models of a sequence of accounts.
pub open spec fn accounts_view(v: Seq<Account>) -> Seq<AccountView> {
    v.map_values(|a: Account| a@)
}

/// The string stored under `k`, if the value there is a string.
pub open spec fn str_field(u: Seq<(Seq<char>, VdfTree)>, k: Seq<char>) -> Option<Seq<char>> {
    match lookup(u, k) {
        Some(VdfTree::Str(s)) => Some(s),
        _ => None,
    }
}

/// The account described by the user map `u` stored under `id`: the login name
/// from `AccountName` (else "Unknown"), the display name from `PersonaName` (else
/// the login name), last-used when `MostRecent` is "1" or "true", and the
/// `Timestamp` when it is a decimal `u64` (else 0).
pub open spec fn user_account(id: Seq<char>, u: Seq<(Seq<char>, VdfTree)>) -> AccountView {
    let username = match str_field(u, "AccountName"@) {
        Some(s) => s,
        None => "Unknown"@,
    };
    AccountView {
        steam_id: id,
        username: username,
        display_name: match str_field(u, "PersonaName"@) {
            Some(s) => s,
            None => username,
        },
        most_recent: match str_field(u, "MostRecent"@) {
            Some(s) => s == "1"@ || s == "true"@,
            None => false,
        },
        timestamp: match str_field(u, "Timestamp"@) {
            Some(s) => match parse_unsigned(s, 10, u64::MAX as nat) {
                Some(v) => v as u64,
                None => 0,
            },
            None => 0,
        },
    }
}

/// The accounts of the entries of a `users` map whose values are maps, in order.
pub open spec fn users_accounts(users: Seq<(Seq<char>, VdfTree)>) -> Seq<AccountView>
    decreases users.len(),
{
    if users.len() == 0 {
        Seq::empty()
    } else {
        let rest = users_accounts(users.drop_last());
        match users.last().1 {
            VdfTree::Obj(u) => rest.push(user_account(users.last().0, u)),
            VdfTree::Str(_) => rest,
        }
    }
}

/// `a` placed after every account of `s` with a timestamp at least as large.
pub open spec fn insert_by_time(s: Seq<AccountView>, a: AccountView) -> Seq<AccountView>
    decreases s.len(),
{
    if s.len() == 0 {
        seq![a]
    } else if s[0].timestamp >= a.timestamp {
        seq![s[0]] + insert_by_time(s.drop_first(), a)
    } else {
        seq![a] + s
    }
}

/// `s` sorted by decreasing timestamp, accounts with equal timestamps in their
/// original order (a stable sort).
pub open spec fn sort_by_time(s: Seq<AccountView>) -> Seq<AccountView>
    decreases s.len(),
{
    if s.len() == 0 {
        Seq::empty()
    } else {
        insert_by_time(sort_by_time(s.drop_last()), s.last())
    }
}

/// The accounts that a parsed `loginusers.vdf` describes.
pub open spec fn loginusers_accounts(doc: Seq<(Seq<char>, VdfTree)>) -> Seq<AccountView> {
    match lookup(doc, "users"@) {
        Some(VdfTree::Obj(users)) => sort_by_time(users_accounts(users)),
        _ => Seq::empty(),
    }
}

/// The accounts that the text of `loginusers.vdf` describes; none when it does
/// not parse.
pub open spec fn accounts_in_text(content: Seq<char>) -> Seq<AccountView> {
    match spec_parse(content) {
        Ok(doc) => loginusers_accounts(doc),
        Err(_) => Seq::empty(),
    }
}

/// Descending timestamps.
pub open spec fn by_time_desc(s: Seq<AccountView>) -> bool {
    forall|i: int, j: int| 0 <= i < j < s.len() ==> #[trigger] s[i].timestamp >= #[trigger] s[
        j
    ].timestamp
}

/// The string stored under `key` in `u`, if that value is a string.
fn str_field_of<'a>(u: &'a VdfMap, key: &str) -> (r: Option<&'a str>)
    ensures
        match r {
            Some(s) => str_field(u@, key@) == Some(s@),
            None => str_field(u@, key@) is None,
        },
{
    match u.get(key) {
        Some(v) => v.get_str(),
        None => None,
    }
}

/// The account described by the user map `u` stored under `id`.
fn account_of(id: &String, u: &VdfMap) -> (a: Account)
    ensures
        a@ == user_account(id@, u@),
{
    let username = match str_field_of(u, "AccountName") {
        Some(s) => string_of(s),
        None => String::from_str("Unknown"),
    };
    let display_name = match str_field_of(u, "PersonaName") {
        Some(s) => string_of(s),
        None => username.clone(),
    };
    let most_recent = match str_field_of(u, "MostRecent") {
        Some(s) => same_chars(s, "1") || same_chars(s, "true"),
        None => false,
    };
    let timestamp = match str_field_of(u, "Timestamp") {
        Some(s) => match parse_unsigned_str(s, 10, u64::MAX) {
            Some(v) => v,
            None => 0,
        },
        None => 0,
    };
    Account { steam_id: id.clone(), username, display_name, most_recent, timestamp }
}

/// Places `a` after every account of `v` with a timestamp at least as large.
fn insert_account(v: &mut Vec<Account>, a: Account)
    ensures
        accounts_view(final(v)@) == insert_by_time(accounts_view(old(v)@), a@),
{
    let ghost s = accounts_view(v@);
    let mut p: usize = 0;
    proof {
        assert(s.skip(0) =~= s);
        assert(s.take(0) + insert_by_time(s, a@) =~= insert_by_time(s, a@));
    }
    while p < v.len() && v[p].timestamp >= a.timestamp
        invariant
            p <= v@.len(),
            s == accounts_view(v@),
            insert_by_time(s, a@) == s.take(p as int) + insert_by_time(s.skip(p as int), a@),
        decreases v@.len() - p,
    {
        proof {
            let t = s.skip(p as int);
            assert(t[0] == s[p as int]);
            assert(t.drop_first() =~= s.skip(p + 1));
            assert(s.take(p as int) + (seq![t[0]] + insert_by_time(t.drop_first(), a@)) =~= s.take(
                p + 1,
            ) + insert_by_time(s.skip(p + 1), a@));
        }
        p = p + 1;
    }
    let ghost at = a@;
    v.insert(p, a);
    proof {
        let t = s.skip(p as int);
        if p < s.len() {
            assert(t[0] == s[p as int]);
            assert(insert_by_time(t, at) == seq![at] + t);
        } else {
            assert(t =~= Seq::<AccountView>::empty());
        }
        assert(accounts_view(v@) =~= s.take(p as int) + insert_by_time(t, at));
    }
}

/// The accounts of a parsed `loginusers.vdf`, most recently used first.
pub fn accounts_from_doc(doc: &VdfMap) -> (r: Vec<Account>)
    ensures
        accounts_view(r@) == loginusers_accounts(doc@),
{
    let mut r: Vec<Account> = Vec::new();
    let users = match doc.get("users") {
        Some(v) => match v.get_obj() {
            Some(m) => m,
            None => {
                proof {
                    assert(accounts_view(r@) =~= Seq::<AccountView>::empty());
                }
                return r;
            },
        },
        None => {
            proof {
                assert(accounts_view(r@) =~= Seq::<AccountView>::empty());
            }
            return r;
        },
    };
    let n = users.len();
    let mut i: usize = 0;
    proof {
        assert(accounts_view(r@) =~= Seq::<AccountView>::empty());
        assert(users@.take(0) =~= Seq::<(Seq<char>, VdfTree)>::empty());
    }
    while i < n
        invariant
            n == users@.len(),
            i <= n,
            accounts_view(r@) == sort_by_time(users_accounts(users@.take(i as int))),
        decreases n - i,
    {
        let ghost pre = users@.take(i as int);
        proof {
            assert(users@.take(i + 1).drop_last() =~= pre);
            assert(users@.take(i + 1).last() == users@[i as int]);
        }
        match users.value_at(i).get_obj() {
            Some(u) => {
                let a = account_of(users.key_at(i), u);
                proof {
                    assert(users_accounts(users@.take(i + 1)) == users_accounts(pre).push(a@));
                    assert(users_accounts(pre).push(a@).drop_last() =~= users_accounts(pre));
                }
                insert_account(&mut r, a);
            },
            None => {},
        }
        i = i + 1;
    }
    proof {
        assert(users@.take(n as int) =~= users@);
    }
    r
}

/// The accounts that the text of `loginusers.vdf` lists, most recently used
/// first; none when the text does not parse or has no `users` map.
pub fn accounts_from_loginusers(content: &str) -> (r: Vec<Account>)
    ensures
        accounts_view(r@) == accounts_in_text(content@),
{
    match parse(content) {
        Ok(doc) => accounts_from_doc(&doc),
        Err(_) => {
            let r: Vec<Account> = Vec::new();
            proof {
                assert(accounts_view(r@) =~= Seq::<AccountView>::empty());
            }
            r
        },
    }
}

/// Placing an account into a list sorted by decreasing timestamp keeps it sorted.
pub proof fn lemma_insert_by_time_sorted(s: Seq<AccountView>, a: AccountView)
    requires
        by_time_desc(s),
    ensures
        by_time_desc(insert_by_time(s, a)),
        insert_by_time(s, a).to_multiset() == s.to_multiset().insert(a),
    decreases s.len(),
{
    broadcast use vstd::seq_lib::group_to_multiset_ensures;

    let r = insert_by_time(s, a);
    if s.len() == 0 {
        assert(r =~= seq![a]);
        assert(seq![a] =~= Seq::<AccountView>::empty().push(a));
    } else if s[0].timestamp >= a.timestamp {
        let rest = s.drop_first();
        assert(by_time_desc(rest)) by {
            assert forall|i: int, j: int| 0 <= i < j < rest.len() implies #[trigger] rest[i].timestamp
                >= #[trigger] rest[j].timestamp by {
                assert(rest[i] == s[i + 1]);
                assert(rest[j] == s[j + 1]);
            }
        }
        lemma_insert_by_time_sorted(rest, a);
        let rr = insert_by_time(rest, a);
        assert(r =~= seq![s[0]] + rr);
        assert forall|j: int| 0 <= j < rr.len() implies s[0].timestamp >= #[trigger] rr[j].timestamp by {
            assert(rr.to_multiset().count(rr[j]) > 0);
            assert(rest.to_multiset().insert(a).count(rr[j]) > 0);
            if rr[j] != a {
                assert(rest.to_multiset().count(rr[j]) > 0);
                assert(rest.contains(rr[j]));
                let k = choose|k: int| 0 <= k < rest.len() && rest[k] == rr[j];
                assert(rest[k] == s[k + 1]);
            }
        }
        assert(s =~= seq![s[0]] + rest);
        vstd::seq_lib::lemma_multiset_commutative(seq![s[0]], rr);
        vstd::seq_lib::lemma_multiset_commutative(seq![s[0]], rest);
    } else {
        assert(r =~= seq![a] + s);
        vstd::seq_lib::lemma_multiset_commutative(seq![a], s);
        assert forall|i: int, j: int| 0 <= i < j < r.len() implies #[trigger] r[i].timestamp
            >= #[trigger] r[j].timestamp by {
            if i == 0 {
                assert(s[0].timestamp >= s[j - 1].timestamp || j - 1 == 0);
            }
        }
    }
}

/// The accounts come out ordered by decreasing timestamp, each account of the
/// file exactly once.
pub proof fn lemma_sort_by_time(s: Seq<AccountView>)
    ensures
        by_time_desc(sort_by_time(s)),
        sort_by_time(s).to_multiset() == s.to_multiset(),
    decreases s.len(),
{
    broadcast use vstd::seq_lib::group_to_multiset_ensures;

    if s.len() > 0 {
        lemma_sort_by_time(s.drop_last());
        lemma_insert_by_time_sorted(sort_by_time(s.drop_last()), s.last());
        assert(s =~= s.drop_last().push(s.last()));
    } else {
        assert(sort_by_time(s) =~= s);
    }
}

} // verus!
