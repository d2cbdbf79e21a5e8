//! The texts shown to the user: account lists with their labels, the help for
//! naming an account, the tag list; and the choice made at the account prompt.
use vstd::prelude::*;
use vstd::string::StringExecFns;
use crate::accounts::{Account, AccountView, accounts_view};
use crate::tags::{Tags};
use crate::text::same_chars;
use crate::strutil::{
    trim,
    trim_str,
    decimal,
    eq_ignore_ascii_case,
    str_eq_ignore_ascii_case,
    u64_to_string,
    parse_unsigned,
    parse_unsigned_str,
    same_ignoring_ascii_case,
    lemma_eq_ignore_ascii_case,
};

verus! {

/// `items` joined with `sep` between neighbours.
pub open spec fn join(items: Seq<Seq<char>>, sep: Seq<char>) -> Seq<char>
    decreases items.len(),
{
    if items.len() == 0 {
        Seq::empty()
    } else if items.len() == 1 {
        items[0]
    } else {
        join(items.drop_last(), sep) + sep + items.last()
    }
}

/// "active" when the login name is the active user (up to ASCII case), then
/// "last used" when the account was used last.
pub open spec fn status_labels(a: AccountView, active: Seq<char>) -> Seq<Seq<char>> {
    (if eq_ignore_ascii_case(a.username, active) {
        seq!["active"@]
    } else {
        Seq::empty()
    }) + (if a.most_recent {
        seq!["last used"@]
    } else {
        Seq::empty()
    })
}

/// The first tag, in tag order, that stands for Steam ID `id`.
pub open spec fn first_tag_of(tags: Seq<(Seq<char>, Seq<char>)>, id: Seq<char>) -> Option<
    Seq<char>,
>
    decreases tags.len(),
{
    if tags.len() == 0 {
        None
    } else if tags[0].1 == id {
        Some(tags[0].0)
    } else {
        first_tag_of(tags.drop_first(), id)
    }
}

/// Every tag that stands for Steam ID `id`, in tag order.
pub open spec fn tags_of(tags: Seq<(Seq<char>, Seq<char>)>, id: Seq<char>) -> Seq<Seq<char>>
    decreases tags.len(),
{
    if tags.len() == 0 {
        Seq::empty()
    } else {
        let r = tags_of(tags.drop_last(), id);
        if tags.last().1 == id {
            r.push(tags.last().0)
        } else {
            r
        }
    }
}

/// The label of a tag.
pub open spec fn tag_label(t: Seq<char>) -> Seq<char> {
    "tag: "@ + t
}

/// The labels of an account in the short list: its statuses and its first tag.
pub open spec fn short_labels(a: AccountView, active: Seq<char>, tags: Seq<(Seq<char>, Seq<char>)>) -> Seq<
    Seq<char>,
> {
    status_labels(a, active) + match first_tag_of(tags, a.steam_id) {
        Some(t) => seq![tag_label(t)],
        None => Seq::empty(),
    }
}

/// The labels of an account at the prompt: its statuses and all its tags.
pub open spec fn full_labels(a: AccountView, active: Seq<char>, tags: Seq<(Seq<char>, Seq<char>)>) -> Seq<
    Seq<char>,
> {
    status_labels(a, active) + tags_of(tags, a.steam_id).map_values(|t: Seq<char>| tag_label(t))
}

/// ` [label, label]`, or nothing when there are no labels.
pub open spec fn labels_suffix(labels: Seq<Seq<char>>) -> Seq<char> {
    if labels.len() == 0 {
        Seq::empty()
    } else {
        " ["@ + join(labels, ", "@) + "]"@
    }
}

/// The list line of the account at position `i` (shown counted from 1).
pub open spec fn account_line(i: int, a: AccountView, labels: Seq<Seq<char>>) -> Seq<char> {
    "  "@ + decimal((i + 1) as nat) + ". "@ + a.display_name + " ("@ + a.username + ")"@
        + labels_suffix(labels) + "\n"@
}

/// The lines of the first `n` accounts, with short labels or with full labels.
pub open spec fn account_lines(
    accs: Seq<AccountView>,
    active: Seq<char>,
    tags: Seq<(Seq<char>, Seq<char>)>,
    full: bool,
    n: int,
) -> Seq<char>
    decreases n,
{
    if n <= 0 {
        Seq::empty()
    } else {
        let a = accs[n - 1];
        account_lines(accs, active, tags, full, n - 1) + account_line(
            n - 1,
            a,
            if full {
                full_labels(a, active, tags)
            } else {
                short_labels(a, active, tags)
            },
        )
    }
}

/// The short account list: nothing when there are no accounts, else a heading
/// and one line per account.
pub open spec fn short_list(
    accs: Seq<AccountView>,
    active: Seq<char>,
    tags: Seq<(Seq<char>, Seq<char>)>,
) -> Seq<char> {
    if accs.len() == 0 {
        Seq::empty()
    } else {
        "\navailable accounts:\n"@ + account_lines(accs, active, tags, false, accs.len() as int)
    }
}

/// Appends `labels_suffix(labels)`.
fn write_labels(labels: &Vec<String>, out: &mut String)
    ensures
        final(out)@ == old(out)@ + labels_suffix(labels@.map_values(|s: String| s@)),
{
    let ghost ls = labels@.map_values(|s: String| s@);
    if labels.len() == 0 {
        assert(old(out)@ + Seq::<char>::empty() =~= old(out)@);
        return ;
    }
    let ghost start = out@;
    out.append(" [");
    let ghost after_open = out@;
    out.append(labels[0].as_str());
    let mut i: usize = 1;
    proof {
        assert(ls.take(1) =~= seq![ls[0]]);
    }
    while i < labels.len()
        invariant
            ls == labels@.map_values(|s: String| s@),
            1 <= i <= labels@.len(),
            out@ == after_open + join(ls.take(i as int), ", "@),
        decreases labels@.len() - i,
    {
        proof {
            assert(ls.take(i + 1).drop_last() =~= ls.take(i as int));
            assert(ls.take(i + 1).last() == ls[i as int]);
        }
        out.append(", ");
        out.append(labels[i].as_str());
        proof {
            assert(out@ =~= after_open + join(ls.take(i + 1), ", "@));
        }
        i = i + 1;
    }
    out.append("]");
    proof {
        assert(ls.take(labels@.len() as int) =~= ls);
        assert(out@ =~= start + labels_suffix(ls));
    }
}

/// The status labels of an account.
fn push_status_labels(a: &Account, active_user: &str, labels: &mut Vec<String>)
    ensures
        final(labels)@.map_values(|s: String| s@) == old(labels)@.map_values(|s: String| s@)
            + status_labels(a@, active_user@),
{
    let ghost before = labels@.map_values(|s: String| s@);
    let act = str_eq_ignore_ascii_case(a.username.as_str(), active_user);
    if act {
        labels.push(String::from_str("active"));
    }
    let ghost mid = labels@.map_values(|s: String| s@);
    proof {
        if act {
            assert(mid =~= before + seq!["active"@]);
        } else {
            assert(mid =~= before + Seq::<Seq<char>>::empty());
        }
    }
    if a.most_recent {
        labels.push(String::from_str("last used"));
    }
    proof {
        let after = labels@.map_values(|s: String| s@);
        if a.most_recent {
            assert(after =~= mid + seq!["last used"@]);
        } else {
            assert(after =~= mid + Seq::<Seq<char>>::empty());
        }
        assert(after =~= before + status_labels(a@, active_user@));
    }
}

/// Appends the list line of account `a` at position `i`.
fn write_account_line(i: usize, a: &Account, labels: &Vec<String>, out: &mut String)
    requires
        i < usize::MAX,
    ensures
        final(out)@ == old(out)@ + account_line(i as int, a@, labels@.map_values(|s: String| s@)),
{
    out.append("  ");
    out.append(u64_to_string((i + 1) as u64).as_str());
    out.append(". ");
    out.append(a.display_name.as_str());
    out.append(" (");
    out.append(a.username.as_str());
    out.append(")");
    write_labels(labels, out);
    out.append("\n");
    proof {
        assert(out@ =~= old(out)@ + account_line(i as int, a@, labels@.map_values(|s: String| s@)));
    }
}

/// The labels of `a`: statuses, then its first tag or all its tags.
fn account_labels(a: &Account, active_user: &str, tags: &Tags, full: bool) -> (r: Vec<String>)
    ensures
        r@.map_values(|s: String| s@) == if full {
            full_labels(a@, active_user@, tags@)
        } else {
            short_labels(a@, active_user@, tags@)
        },
{
    let mut labels: Vec<String> = Vec::new();
    proof {
        assert(labels@.map_values(|s: String| s@) =~= Seq::<Seq<char>>::empty());
    }
    push_status_labels(a, active_user, &mut labels);
    let ghost st = labels@.map_values(|s: String| s@);
    let ghost tv = tags@;
    let mut k: usize = 0;
    let mut found = false;
    proof {
        assert(tv.skip(0) =~= tv);
        assert(tv.take(0) =~= Seq::<(Seq<char>, Seq<char>)>::empty());
        assert(st + Seq::<Seq<char>>::empty().map_values(|t: Seq<char>| tag_label(t)) =~= st);
    }
    while k < tags.len() && (full || !found)
        invariant
            tv == tags@,
            k <= tv.len(),
            st == status_labels(a@, active_user@),
            full ==> labels@.map_values(|s: String| s@) == st + tags_of(tv.take(k as int), a@.steam_id).map_values(
                |t: Seq<char>| tag_label(t),
            ),
            !full ==> !found ==> labels@.map_values(|s: String| s@) == st,
            !full ==> !found ==> first_tag_of(tv, a@.steam_id) == first_tag_of(tv.skip(k as int), a@.steam_id),
            !full ==> found ==> labels@.map_values(|s: String| s@) == short_labels(a@, active_user@, tv),
        decreases tv.len() - k,
    {
        let ghost before = labels@.map_values(|s: String| s@);
        proof {
            assert(tv.take(k + 1).drop_last() =~= tv.take(k as int));
            assert(tv.take(k + 1).last() == tv[k as int]);
            assert(tv.skip(k as int)[0] == tv[k as int]);
            assert(tv.skip(k as int).drop_first() =~= tv.skip(k + 1));
        }
        if same_chars(tags.id_at(k).as_str(), a.steam_id.as_str()) {
            let mut l = String::from_str("tag: ");
            l.append(tags.tag_at(k).as_str());
            labels.push(l);
            proof {
                assert(labels@.map_values(|s: String| s@) =~= before.push(tag_label(tv[k as int].0)));
                if full {
                    let f = |t: Seq<char>| tag_label(t);
                    assert(tags_of(tv.take(k + 1), a@.steam_id) == tags_of(tv.take(k as int), a@.steam_id).push(tv[k as int].0));
                    assert(tags_of(tv.take(k + 1), a@.steam_id).map_values(f) =~= tags_of(tv.take(k as int), a@.steam_id).map_values(f).push(tag_label(tv[k as int].0)));
                    assert(labels@.map_values(|s: String| s@) =~= st + tags_of(tv.take(k + 1), a@.steam_id).map_values(f));
                } else {
                    assert(first_tag_of(tv.skip(k as int), a@.steam_id) == Some(tv[k as int].0));
                    assert(labels@.map_values(|s: String| s@) =~= short_labels(a@, active_user@, tv));
                }
            }
            found = true;
        } else {
            proof {
                if full {
                    assert(tags_of(tv.take(k + 1), a@.steam_id) == tags_of(tv.take(k as int), a@.steam_id));
                }
            }
        }
        k = k + 1;
    }
    proof {
        if full {
            assert(tv.take(tv.len() as int) =~= tv);
        } else if !found {
            assert(k == tv.len());
            assert(tv.skip(tv.len() as int) =~= Seq::<(Seq<char>, Seq<char>)>::empty());
            assert(st + Seq::<Seq<char>>::empty() =~= st);
        }
    }
    labels
}

/// Appends the lines of all accounts, with short or full labels.
fn write_account_lines(
    accounts: &Vec<Account>,
    active_user: &str,
    tags: &Tags,
    full: bool,
    out: &mut String,
)
    ensures
        final(out)@ == old(out)@ + account_lines(
            accounts_view(accounts@),
            active_user@,
            tags@,
            full,
            accounts@.len() as int,
        ),
{
    let ghost accs = accounts_view(accounts@);
    let mut i: usize = 0;
    while i < accounts.len()
        invariant
            accs == accounts_view(accounts@),
            i <= accounts@.len(),
            out@ == old(out)@ + account_lines(accs, active_user@, tags@, full, i as int),
        decreases accounts@.len() - i,
    {
        let a = &accounts[i];
        let labels = account_labels(a, active_user, tags, full);
        proof {
            assert(accs[i as int] == a@);
        }
        write_account_line(i, a, &labels, out);
        i = i + 1;
    }
}

/// The short account list for `accounts`, with the active user's login name and
/// the tags (see `short_list`).
pub fn simple_account_list(accounts: &Vec<Account>, active_user: &str, tags: &Tags) -> (r: String)
    ensures
        r@ == short_list(accounts_view(accounts@), active_user@, tags@),
{
    let mut out = String::new();
    if accounts.len() == 0 {
        return out;
    }
    out.append("\navailable accounts:\n");
    write_account_lines(accounts, active_user, tags, false, &mut out);
    out
}

/// The lines of the account list shown at the prompt, with all tags.
pub fn prompt_account_lines(accounts: &Vec<Account>, active_user: &str, tags: &Tags) -> (r: String)
    ensures
        r@ == account_lines(
            accounts_view(accounts@),
            active_user@,
            tags@,
            true,
            accounts@.len() as int,
        ),
{
    let mut out = String::new();
    write_account_lines(accounts, active_user, tags, true, &mut out);
    out
}

/// How `<acc>` can be written, followed by `account_list`.
pub open spec fn help_text(account_list: Seq<char>) -> Seq<char> {
    "where <acc> can be:\n"@ + "  - the number of the account in the list below (e.g. 1)\n"@
        + "  - the login username (e.g. gabelogannewell)\n"@
        + "  - the display name (e.g. Gabe Newell)\n"@
        + "  - the steam ID (e.g. 76561197960287930)\n"@ + account_list
}

/// The help on naming an account, followed by the account list.
pub fn account_help_text(account_list: &str) -> (r: String)
    ensures
        r@ == help_text(account_list@),
{
    let mut out = String::from_str("where <acc> can be:\n");
    out.append("  - the number of the account in the list below (e.g. 1)\n");
    out.append("  - the login username (e.g. gabelogannewell)\n");
    out.append("  - the display name (e.g. Gabe Newell)\n");
    out.append("  - the steam ID (e.g. 76561197960287930)\n");
    out.append(account_list);
    out
}

/// What the answer at the account prompt asks for.
#[derive(Debug, Clone, Copy, PartialEq, Eq)]
pub enum Selection {
    /// Nothing was entered.
    Cancel,
    /// The chosen account (by position in the list) is already running.
    AlreadyRunning(usize),
    /// Switch to the chosen account (by position in the list).
    Switch(usize),
    /// The answer is not a position in the list.
    Invalid,
}

/// The meaning of the answer `input`: empty after trimming cancels; a position
/// `n` in the list (counted from 1) picks account `n - 1`, which is already
/// running when it is the active user and Steam runs; anything else is invalid.
pub open spec fn selection_of(
    input: Seq<char>,
    accs: Seq<AccountView>,
    active: Seq<char>,
    running: bool,
) -> Selection {
    let t = trim(input);
    if t.len() == 0 {
        Selection::Cancel
    } else if parse_unsigned(t, 10, usize::MAX as nat) matches Some(n) && 1 <= n <= accs.len() {
        let i = (parse_unsigned(t, 10, usize::MAX as nat).unwrap() - 1) as usize;
        if eq_ignore_ascii_case(accs[i as int].username, active) && running {
            Selection::AlreadyRunning(i)
        } else {
            Selection::Switch(i)
        }
    } else {
        Selection::Invalid
    }
}

/// Interprets the answer at the account prompt (see `selection_of`).
pub fn select_account(input: &str, accounts: &Vec<Account>, active_user: &str, running: bool) -> (r: Selection)
    ensures
        r == selection_of(input@, accounts_view(accounts@), active_user@, running),
{
    let t = trim_str(input);
    if t.as_str().unicode_len() == 0 {
        return Selection::Cancel;
    }
    match parse_unsigned_str(t.as_str(), 10, usize::MAX as u64) {
        Some(n) => {
            if 1 <= n && n <= accounts.len() as u64 {
                let i = (n - 1) as usize;
                proof {
                    assert(accounts_view(accounts@)[i as int] == accounts@[i as int]@);
                }
                if str_eq_ignore_ascii_case(accounts[i].username.as_str(), active_user) && running {
                    Selection::AlreadyRunning(i)
                } else {
                    Selection::Switch(i)
                }
            } else {
                Selection::Invalid
            }
        },
        None => Selection::Invalid,
    }
}

/// Answering the prompt with the position `n` of an account (counted from 1):
/// when Steam runs and that account's login name is the active user up to ASCII
/// letter case, it is reported as already running; otherwise it is switched to.
/// It is reported as already running exactly when Steam runs and the list shows
/// it as "active".
pub proof fn lemma_select_number(
    input: Seq<char>,
    accs: Seq<AccountView>,
    active: Seq<char>,
    running: bool,
    n: nat,
)
    requires
        parse_unsigned(trim(input), 10, usize::MAX as nat) == Some(n),
        1 <= n <= accs.len(),
    ensures
        selection_of(input, accs, active, running) == if running && same_ignoring_ascii_case(
            accs[n - 1].username,
            active,
        ) {
            Selection::AlreadyRunning((n - 1) as usize)
        } else {
            Selection::Switch((n - 1) as usize)
        },
        selection_of(input, accs, active, running) is AlreadyRunning <==> running && status_labels(
            accs[n - 1],
            active,
        ).len() > 0 && status_labels(accs[n - 1], active)[0] == "active"@,
{
    reveal_strlit("active");
    reveal_strlit("last used");
    let a = accs[n - 1];
    lemma_eq_ignore_ascii_case(a.username, active);
    assert(n <= usize::MAX) by {
        assert(trim(input).len() > 0);
    }
    assert(((n - 1) as usize) as int == n - 1);
    assert("active"@ != "last used"@) by {
        assert("active"@.len() != "last used"@.len());
    }
    let labels = status_labels(a, active);
    if eq_ignore_ascii_case(a.username, active) {
        assert(labels[0] == "active"@);
    } else if labels.len() > 0 {
        assert(labels[0] == "last used"@);
    }
}

/// The line of one tag in the tag list: the tag and the first account with its
/// Steam ID (display and login name), or the bare Steam ID.
pub open spec fn tag_report_line(
    tag: Seq<char>,
    id: Seq<char>,
    accs: Seq<AccountView>,
) -> Seq<char> {
    "  "@ + tag + " -> "@ + if exists|i: int| 0 <= i < accs.len() && accs[i].steam_id == id {
        let i = choose|i: int|
            0 <= i < accs.len() && accs[i].steam_id == id && forall|j: int|
                0 <= j < i ==> #[trigger] accs[j].steam_id != id;
        accs[i].display_name + " ("@ + accs[i].username + ")"@
    } else {
        "SteamID: "@ + id
    } + "\n"@
}

/// The lines of the first `n` tags.
pub open spec fn tag_report_lines(
    tags: Seq<(Seq<char>, Seq<char>)>,
    accs: Seq<AccountView>,
    n: int,
) -> Seq<char>
    decreases n,
{
    if n <= 0 {
        Seq::empty()
    } else {
        tag_report_lines(tags, accs, n - 1) + tag_report_line(tags[n - 1].0, tags[n - 1].1, accs)
    }
}

/// The tag list: a heading, then one line per tag.
pub fn tags_report(tags: &Tags, accounts: &Vec<Account>) -> (r: String)
    ensures
        r@ == "configured tags:\n"@ + tag_report_lines(tags@, accounts_view(accounts@), tags@.len() as int),
{
    let ghost accs = accounts_view(accounts@);
    let mut out = String::from_str("configured tags:\n");
    let ghost head = out@;
    let mut k: usize = 0;
    while k < tags.len()
        invariant
            accs == accounts_view(accounts@),
            k <= tags@.len(),
            head == "configured tags:\n"@,
            out@ == head + tag_report_lines(tags@, accs, k as int),
        decreases tags@.len() - k,
    {
        let id = tags.id_at(k);
        let ghost before = out@;
        out.append("  ");
        out.append(tags.tag_at(k).as_str());
        out.append(" -> ");
        let mut i: usize = 0;
        while i < accounts.len() && !same_chars(accounts[i].steam_id.as_str(), id.as_str())
            invariant
                accs == accounts_view(accounts@),
                i <= accounts@.len(),
                forall|j: int| 0 <= j < i ==> #[trigger] accs[j].steam_id != id@,
            decreases accounts@.len() - i,
        {
            proof {
                assert(accs[i as int] == accounts@[i as int]@);
            }
            i = i + 1;
        }
        let ghost mid = out@;
        if i < accounts.len() {
            out.append(accounts[i].display_name.as_str());
            out.append(" (");
            out.append(accounts[i].username.as_str());
            out.append(")");
            proof {
                assert(accs[i as int] == accounts@[i as int]@);
                let c = choose|c: int|
                    0 <= c < accs.len() && accs[c].steam_id == id@ && forall|j: int|
                        0 <= j < c ==> #[trigger] accs[j].steam_id != id@;
                if c < i {
                } else if c > i {
                    assert(accs[i as int].steam_id != id@);
                }
            }
        } else {
            out.append("SteamID: ");
            out.append(id.as_str());
        }
        out.append("\n");
        proof {
            assert(out@ =~= before + tag_report_line(tags@[k as int].0, tags@[k as int].1, accs));
        }
        k = k + 1;
    }
    out
}

} // verus!
