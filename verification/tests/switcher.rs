use lib::accounts::{accounts_from_doc, accounts_from_loginusers, Account};
use lib::listing::{account_help_text, prompt_account_lines, select_account, simple_account_list, tags_report, Selection};
use lib::parser::parse;
use lib::registry::UnixPlatform;
use lib::steam_config::{custom_steam_path, disable_user_chooser, mark_switched_account, skip_offline_warnings};
use lib::tags::{check_tag_name, handle_tag_switch, normalize_tag_name, parse_tags, pick_account, tag_target, tags_text, untag, Tags};
use lib::windows::{contains_str, RegistryQuery, WindowsPlatform};


fn s(x: &str) -> String {
    x.to_string()
}

fn acc(id: &str, user: &str, name: &str, recent: bool, ts: u64) -> Account {
    Account {
        steam_id: s(id),
        username: s(user),
        display_name: s(name),
        most_recent: recent,
        timestamp: ts,
    }
}

const LOGINUSERS: &str = "\"users\"\n{\n\
\t\"111\"\n\t{\n\t\t\"AccountName\"\t\t\"alice\"\n\t\t\"PersonaName\"\t\t\"Alice A\"\n\t\t\"MostRecent\"\t\t\"0\"\n\t\t\"Timestamp\"\t\t\"100\"\n\t}\n\
\t\"222\"\n\t{\n\t\t\"AccountName\"\t\t\"bob\"\n\t\t\"MostRecent\"\t\t\"1\"\n\t\t\"Timestamp\"\t\t\"300\"\n\t}\n\
\t\"333\"\n\t{\n\t\t\"PersonaName\"\t\t\"Carol\"\n\t\t\"MostRecent\"\t\t\"true\"\n\t\t\"Timestamp\"\t\t\"junk\"\n\t}\n\
\t\"444\"\t\"not a map\"\n\
\t\"555\"\n\t{\n\t\t\"AccountName\"\t\t\"dave\"\n\t\t\"Timestamp\"\t\t\"100\"\n\t}\n\
}\n";

fn sample_accounts() -> Vec<Account> {
    vec![
        acc("222", "bob", "Bobby", true, 300),
        acc("111", "alice", "Alice A", false, 100),
        acc("555", "dave", "dave", false, 100),
    ]
}

fn tags_of(pairs: &[(&str, &str)]) -> Tags {
    let mut t = Tags::new();
    for (k, v) in pairs {
        t.insert(s(k), s(v));
    }
    t
}

#[test]
fn accounts_read_from_loginusers() {
    let accounts = accounts_from_loginusers(LOGINUSERS);
    assert_eq!(
        accounts,
        vec![
            acc("222", "bob", "bob", true, 300),
            acc("111", "alice", "Alice A", false, 100),
            acc("555", "dave", "dave", false, 100),
            acc("333", "Unknown", "Carol", true, 0),
        ]
    );
}

#[test]
fn accounts_from_bad_text_are_empty() {
    assert!(accounts_from_loginusers("\"users\" {").is_empty());
    assert!(accounts_from_loginusers("\"users\" \"x\"").is_empty());
    assert!(accounts_from_loginusers("\"other\" { }").is_empty());
}

#[test]
fn accounts_from_parsed_doc() {
    let doc = parse("users { 9 { AccountName z Timestamp 5 } 8 { Timestamp 18446744073709551616 } }").unwrap();
    assert_eq!(
        accounts_from_doc(&doc),
        vec![acc("9", "z", "z", false, 5), acc("8", "Unknown", "Unknown", false, 0)]
    );
}

#[test]
fn accounts_sorted_by_time_descending() {
    let accounts = accounts_from_loginusers(LOGINUSERS);
    for w in accounts.windows(2) {
        assert!(w[0].timestamp >= w[1].timestamp);
    }
}

#[test]
fn short_list_text() {
    let tags = tags_of(&[("main", "111"), ("alt", "111"), ("b", "222")]);
    let out = simple_account_list(&sample_accounts(), "BOB", &tags);
    assert_eq!(
        out,
        "\navailable accounts:\n  1. Bobby (bob) [active, last used, tag: b]\n  2. Alice A (alice) [tag: main]\n  3. dave (dave)\n"
    );
    assert_eq!(simple_account_list(&Vec::new(), "bob", &tags), "");
}

#[test]
fn prompt_lines_show_every_tag() {
    let tags = tags_of(&[("main", "111"), ("alt", "111")]);
    let out = prompt_account_lines(&sample_accounts(), "None", &tags);
    assert_eq!(
        out,
        "  1. Bobby (bob) [last used]\n  2. Alice A (alice) [tag: main, tag: alt]\n  3. dave (dave)\n"
    );
}

#[test]
fn help_text_prefix() {
    let out = account_help_text("LIST");
    assert_eq!(
        out,
        "where <acc> can be:\n  - the number of the account in the list below (e.g. 1)\n  - the login username (e.g. gabelogannewell)\n  - the display name (e.g. Gabe Newell)\n  - the steam ID (e.g. 76561197960287930)\nLIST"
    );
}

#[test]
fn selection_answers() {
    let accounts = sample_accounts();
    assert_eq!(select_account("  \n", &accounts, "bob", true), Selection::Cancel);
    assert_eq!(select_account("1\n", &accounts, "bob", true), Selection::AlreadyRunning(0));
    assert_eq!(select_account("1", &accounts, "bob", false), Selection::Switch(0));
    assert_eq!(select_account(" 3 ", &accounts, "bob", true), Selection::Switch(2));
    assert_eq!(select_account("+2", &accounts, "x", true), Selection::Switch(1));
    assert_eq!(select_account("0", &accounts, "bob", true), Selection::Invalid);
    assert_eq!(select_account("4", &accounts, "bob", true), Selection::Invalid);
    assert_eq!(select_account("-1", &accounts, "bob", true), Selection::Invalid);
    assert_eq!(select_account("two", &accounts, "bob", true), Selection::Invalid);
}

#[test]
fn tags_read_from_text() {
    let t = parse_tags("# comment\n Main = 111 \n\nfoo=bar=baz\r\nnoequals\nMAIN=999\n  #x=1\n");
    assert_eq!(t.len(), 2);
    assert_eq!(t.tag_at(0), "main");
    assert_eq!(t.id_at(0), "999");
    assert_eq!(t.tag_at(1), "foo");
    assert_eq!(t.id_at(1), "bar=baz");
    assert_eq!(t.get("main"), Some(&s("999")));
    assert!(t.get("noequals").is_none());
}

#[test]
fn tags_written_as_lines() {
    let t = tags_of(&[("a", "1"), ("b", "2")]);
    assert_eq!(tags_text(&t), "a=1\nb=2\n");
    assert_eq!(tags_text(&Tags::new()), "");
    let back = parse_tags(&tags_text(&t));
    assert_eq!(back, t);
}

#[test]
fn tags_insert_replace_remove() {
    let mut t = Tags::new();
    assert!(t.is_empty());
    t.insert(s("x"), s("1"));
    t.insert(s("y"), s("2"));
    t.insert(s("x"), s("3"));
    assert_eq!(t.len(), 2);
    assert_eq!(t.get("x"), Some(&s("3")));
    assert_eq!(t.tag_at(0), "x");
    assert!(t.remove("x"));
    assert!(!t.remove("x"));
    assert_eq!(t.len(), 1);
    assert_eq!(t.get("y"), Some(&s("2")));
}

#[test]
fn tag_names_checked() {
    assert_eq!(normalize_tag_name("  Main1 "), Ok(s("main1")));
    assert_eq!(normalize_tag_name("Ünï"), Ok(s("ünï")));
    assert_eq!(normalize_tag_name("   "), Err(s("tag name cannot be empty")));
    assert_eq!(normalize_tag_name("a-b"), Err(s("tag name must be alphanumeric")));
    assert_eq!(normalize_tag_name("skip-offline"), Err(s("tag name must be alphanumeric")));
    assert_eq!(
        normalize_tag_name("STOP"),
        Err(s("'stop' is a reserved command and cannot be used as a tag"))
    );
    assert_eq!(
        normalize_tag_name("tags"),
        Err(s("'tags' is a reserved command and cannot be used as a tag"))
    );
}

#[test]
fn untag_removes_or_reports() {
    let mut t = tags_of(&[("main", "1"), ("alt", "2")]);
    assert_eq!(untag(&mut t, " MAIN "), Ok(s("main")));
    assert_eq!(t.len(), 1);
    assert_eq!(untag(&mut t, "main"), Err(s("tag 'main' not found")));
    assert_eq!(t.len(), 1);
}

#[test]
fn pick_account_by_each_ident() {
    let accounts = sample_accounts();
    assert_eq!(pick_account(&accounts, "2"), Ok(1));
    assert_eq!(pick_account(&accounts, "BOB"), Ok(0));
    assert_eq!(pick_account(&accounts, "alice a"), Ok(1));
    assert_eq!(pick_account(&accounts, "555"), Ok(2));
    assert_eq!(pick_account(&accounts, "4"), Err(s("account not found matching '4'")));
    assert_eq!(pick_account(&accounts, "zed"), Err(s("account not found matching 'zed'")));
    assert_eq!(
        pick_account(&Vec::new(), "1"),
        Err(s("no login profiles found. login to steam at least once first"))
    );
}

#[test]
fn tag_lookup_and_switch_target() {
    let accounts = sample_accounts();
    let tags = tags_of(&[("main", "111"), ("ghost", "999")]);
    assert_eq!(tag_target(&tags, "Main"), Ok(s("111")));
    assert_eq!(handle_tag_switch(&tags, "MAIN", &accounts), Ok(1));
    assert_eq!(
        handle_tag_switch(&tags, "nope", &accounts),
        Err(s("no tag or command matches 'nope'. type 'sswitch help' to see usage"))
    );
    assert_eq!(
        handle_tag_switch(&tags, "Ghost", &accounts),
        Err(s("account with SteamID 999 associated with tag 'Ghost' is not found in loginusers.vdf"))
    );
}

#[test]
fn tags_report_text() {
    let accounts = sample_accounts();
    let tags = tags_of(&[("main", "111"), ("ghost", "999")]);
    assert_eq!(
        tags_report(&tags, &accounts),
        "configured tags:\n  main -> Alice A (alice)\n  ghost -> SteamID: 999\n"
    );
}

#[test]
fn skip_offline_sets_flag_on_every_user() {
    let mut doc = parse("users { 1 { A b } 2 x 3 { SkipOfflineModeWarning 0 } }").unwrap();
    assert!(skip_offline_warnings(&mut doc));
    assert_eq!(
        lib::writer::stringify(&doc),
        "\"users\"\n{\n\t\"1\"\n\t{\n\t\t\"A\"\t\t\"b\"\n\t\t\"SkipOfflineModeWarning\"\t\t\"1\"\n\t}\n\t\"2\"\t\t\"x\"\n\t\"3\"\n\t{\n\t\t\"SkipOfflineModeWarning\"\t\t\"1\"\n\t}\n}\n"
    );
    let mut other = parse("users x").unwrap();
    assert!(!skip_offline_warnings(&mut other));
    assert_eq!(lib::writer::stringify(&other), "\"users\"\t\t\"x\"\n");
}

#[test]
fn switched_account_marked_most_recent() {
    let mut doc = parse("users { 1 { MostRecent 1 } 2 { AccountName b } 3 s }").unwrap();
    assert!(mark_switched_account(&mut doc, "2", 1700000000));
    assert_eq!(
        lib::writer::stringify(&doc),
        "\"users\"\n{\n\t\"1\"\n\t{\n\t\t\"AllowAutoLogin\"\t\t\"0\"\n\t\t\"MostRecent\"\t\t\"0\"\n\t}\n\t\"2\"\n\t{\n\t\t\"AccountName\"\t\t\"b\"\n\t\t\"AllowAutoLogin\"\t\t\"1\"\n\t\t\"MostRecent\"\t\t\"1\"\n\t\t\"RememberPassword\"\t\t\"1\"\n\t\t\"Timestamp\"\t\t\"1700000000\"\n\t}\n\t\"3\"\t\t\"s\"\n}\n"
    );
    let mut none = parse("other { }").unwrap();
    assert!(!mark_switched_account(&mut none, "2", 5));
    assert_eq!(lib::writer::stringify(&none), "\"other\"\n{\n}\n");
}

#[test]
fn user_chooser_disabled() {
    let mut doc = parse("InstallConfigStore { Software x }").unwrap();
    assert!(disable_user_chooser(&mut doc));
    assert_eq!(
        lib::writer::stringify(&doc),
        "\"InstallConfigStore\"\n{\n\t\"Software\"\t\t\"x\"\n\t\"WebStorage\"\n\t{\n\t\t\"Auth\"\n\t\t{\n\t\t\t\"AlwaysShowUserChooser\"\t\t\"0\"\n\t\t}\n\t}\n}\n"
    );
    let mut blocked = parse("InstallConfigStore { WebStorage s }").unwrap();
    assert!(disable_user_chooser(&mut blocked));
    assert_eq!(lib::writer::stringify(&blocked), "\"InstallConfigStore\"\n{\n\t\"WebStorage\"\t\t\"s\"\n}\n");
    let mut missing = parse("a b").unwrap();
    assert!(!disable_user_chooser(&mut missing));
}

#[test]
fn custom_path_trimmed() {
    assert_eq!(custom_steam_path("  /opt/steam \n"), Some(s("/opt/steam")));
    assert_eq!(custom_steam_path(" \n\t"), None);
    assert_eq!(custom_steam_path(""), None);
}

const REGISTRY: &str = "\"Registry\"\n{\n\t\"HKCU\"\n\t{\n\t\t\"Software\"\n\t\t{\n\t\t\t\"Valve\"\n\t\t\t{\n\t\t\t\t\"Steam\"\n\t\t\t\t{\n\t\t\t\t\t\"AutoLoginUser\"\t\t\"bob\"\n\t\t\t\t\t\"Nested\"\n\t\t\t\t\t{\n\t\t\t\t\t}\n\t\t\t\t}\n\t\t\t}\n\t\t}\n\t}\n}\n";

#[test]
fn registry_value_read() {
    let p = UnixPlatform;
    assert_eq!(p.get_registry_vdf_value(REGISTRY, "AutoLoginUser"), Some(s("bob")));
    assert_eq!(p.get_registry_vdf_value(REGISTRY, "Nested"), None);
    assert_eq!(p.get_registry_vdf_value(REGISTRY, "Missing"), None);
    assert_eq!(p.get_registry_vdf_value("\"Registry\" {", "AutoLoginUser"), None);
}

#[test]
fn registry_value_written() {
    let p = UnixPlatform;
    let out = p.set_registry_vdf_value(REGISTRY, "AutoLoginUser", "carol").unwrap();
    assert_eq!(out, REGISTRY.replace("\"bob\"", "\"carol\""));
    let again = p.set_registry_vdf_value(&out, "RememberPassword", "1").unwrap();
    assert_eq!(p.get_registry_vdf_value(&again, "RememberPassword"), Some(s("1")));
    assert_eq!(p.get_registry_vdf_value(&again, "AutoLoginUser"), Some(s("carol")));
}

#[test]
fn registry_written_from_empty_document() {
    let p = UnixPlatform;
    let out = p.set_registry_vdf_value("", "AutoLoginUser", "x").unwrap();
    assert_eq!(
        out,
        "\"Registry\"\n{\n\t\"HKCU\"\n\t{\n\t\t\"Software\"\n\t\t{\n\t\t\t\"Valve\"\n\t\t\t{\n\t\t\t\t\"Steam\"\n\t\t\t\t{\n\t\t\t\t\t\"AutoLoginUser\"\t\t\"x\"\n\t\t\t\t}\n\t\t\t}\n\t\t}\n\t}\n}\n"
    );
}

#[test]
fn registry_write_errors() {
    let p = UnixPlatform;
    assert_eq!(
        p.set_registry_vdf_value("Registry x", "a", "b"),
        Err(s("invalid registry.vdf root structure"))
    );
    assert_eq!(p.set_registry_vdf_value("Registry { HKCU x }", "a", "b"), Err(s("invalid HKCU")));
    assert_eq!(
        p.set_registry_vdf_value("Registry { HKCU { Software { Valve { Steam 1 } } } }", "a", "b"),
        Err(s("invalid Steam"))
    );
    assert_eq!(
        p.set_registry_vdf_value("\"a\"", "a", "b"),
        Err(s("expected value for key 'a', reached EOF"))
    );
}

#[test]
fn windows_query_reads_string_value() {
    let w = WindowsPlatform;
    let out = "\r\nHKEY_CURRENT_USER\\Software\\Valve\\Steam\r\n    AutoLoginUser    REG_SZ    bob smith  \r\n\r\n";
    assert_eq!(w.parse_registry_query(out, "AutoLoginUser"), RegistryQuery::Value(s("bob smith")));
    assert_eq!(w.parse_registry_query(out, "autologinuser"), RegistryQuery::Value(s("bob smith")));
}

#[test]
fn windows_query_reads_dword_value() {
    let w = WindowsPlatform;
    let out = "HKEY_CURRENT_USER\\Software\\Valve\\Steam\n    RememberPassword    REG_DWORD    0x1a\n";
    assert_eq!(w.parse_registry_query(out, "RememberPassword"), RegistryQuery::Value(s("26")));
    let big = "    X    REG_DWORD    0x100000000\n";
    assert_eq!(w.parse_registry_query(big, "X"), RegistryQuery::Missing);
    let max = "    X    reg_dword    0xffffffff\n";
    assert_eq!(w.parse_registry_query(max, "x"), RegistryQuery::Value(s("4294967295")));
}

#[test]
fn windows_query_missing_or_unreadable() {
    let w = WindowsPlatform;
    assert_eq!(w.parse_registry_query("", "SteamPath"), RegistryQuery::Missing);
    assert_eq!(
        w.parse_registry_query("    SteamPath    REG_SZ\n", "SteamPath"),
        RegistryQuery::Missing
    );
    assert_eq!(
        w.parse_registry_query("    SteamPath    REG_EXPAND_SZ    c:\\x\n", "SteamPath"),
        RegistryQuery::Missing
    );
    assert_eq!(
        w.parse_registry_query("    SteamPath    reg_sz    c:\\x\n", "SteamPath"),
        RegistryQuery::NoPosition
    );
}

#[test]
fn windows_query_first_matching_line_wins() {
    let w = WindowsPlatform;
    let out = "    SteamExe    REG_DWORD    zz\n    SteamExe    REG_SZ    c:/steam/steam.exe\n    SteamExe    REG_SZ    other\n";
    assert_eq!(w.parse_registry_query(out, "SteamExe"), RegistryQuery::Value(s("c:/steam/steam.exe")));
}

#[test]
fn tag_name_verdicts() {
    assert_eq!(check_tag_name("main", true), Ok(s("main")));
    assert_eq!(check_tag_name("", true), Err(s("tag name cannot be empty")));
    assert_eq!(check_tag_name("", false), Err(s("tag name cannot be empty")));
    assert_eq!(check_tag_name("a b", false), Err(s("tag name must be alphanumeric")));
    assert_eq!(
        check_tag_name("help", true),
        Err(s("'help' is a reserved command and cannot be used as a tag"))
    );
    assert_eq!(check_tag_name("Help", true), Ok(s("Help")));
}

#[test]
fn windows_single_line_reading() {
    let w = WindowsPlatform;
    assert_eq!(
        w.read_query_line("    SteamPath    REG_SZ    c:/program files/steam ", true),
        RegistryQuery::Value(s("c:/program files/steam"))
    );
    assert_eq!(
        w.read_query_line("    SteamPath    REG_SZ    c:/steam", false),
        RegistryQuery::Missing
    );
    assert_eq!(
        w.read_query_line("\tX\tREG_DWORD\t0x0x10", true),
        RegistryQuery::Value(s("16"))
    );
    assert_eq!(w.read_query_line("X REG_DWORD 0x", true), RegistryQuery::Missing);
    assert_eq!(w.read_query_line("X REG_DWORD +f", true), RegistryQuery::Value(s("15")));
    assert_eq!(w.read_query_line("X Reg_Sz y", true), RegistryQuery::NoPosition);
}

#[test]
fn tags_after_untag_then_tag() {
    let mut t = parse_tags("a=1\nb=2\n");
    assert_eq!(untag(&mut t, "A"), Ok(s("a")));
    t.insert(s("a"), s("3"));
    assert_eq!(tags_text(&t), "b=2\na=3\n");
}

#[test]
fn tasklist_output_checked() {
    let w = WindowsPlatform;
    assert!(w.lists_steam("Image Name   PID\nSTEAM.EXE    1234 Console\n"));
    assert!(!w.lists_steam("INFO: No tasks are running which match the specified criteria.\n"));
    assert!(contains_str("abcabd", "abd"));
    assert!(contains_str("abc", ""));
    assert!(!contains_str("ab", "abc"));
}

#[test]
fn empty_tag_reads_back() {
    let t = parse_tags("=5\n");
    assert_eq!(t.len(), 1);
    assert_eq!(t.tag_at(0), "");
    assert_eq!(t.id_at(0), "5");
    assert_eq!(tags_text(&t), "=5\n");
    assert_eq!(parse_tags(&tags_text(&t)), t);
}

#[test]
fn tag_then_reload_keeps_other_tags() {
    let mut t = parse_tags("a=1\nb=2\n");
    t.insert(s("a"), s("7"));
    t.insert(s("c"), s("3"));
    let back = parse_tags(&tags_text(&t));
    assert_eq!(back, t);
    assert_eq!(back.get("a"), Some(&s("7")));
    assert_eq!(back.get("b"), Some(&s("2")));
    assert_eq!(back.get("c"), Some(&s("3")));
}
